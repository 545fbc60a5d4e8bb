//! Decimal fixed-point numbers with six decimal places.
use crate::basics::{law_rounding_is_symmetric, rounded};
use crate::harvest::{
    frame_number, frame_times, law_frame_count_grows, milliseconds_come_back, nearest_frame,
};
use crate::scalar::{Scalar, mirrored_numbers, ordered_numbers, totally_ordered};
use vstd::arithmetic::power::{lemma_pow_positive, pow};
use vstd::prelude::*;

verus! {

/// A decimal fixed-point number: `units` millionths. Results out of range are
/// replaced by the nearest bound, quotients are cut towards zero, and a nonzero
/// number over zero is the bound of its sign.
#[derive(Clone, Copy, Debug, PartialEq, Eq)]
pub struct Fixed {
    pub units: i64,
}

/// `n`, or the bound of `i64` that it lies beyond.
pub open spec fn saturated(n: int) -> i64 {
    if n > i64::MAX {
        i64::MAX
    } else if n < i64::MIN {
        i64::MIN
    } else {
        n as i64
    }
}

/// `a / b` cut towards zero.
pub open spec fn cut_quotient(a: int, b: int) -> int {
    let q = (if a < 0 { -a } else { a }) / (if b < 0 { -b } else { b });
    if (a < 0) == (b < 0) {
        q
    } else {
        -q
    }
}

fn saturate(n: i128) -> (r: i64)
    ensures
        r == saturated(n as int),
{
    if n > i64::MAX as i128 {
        i64::MAX
    } else if n < i64::MIN as i128 {
        i64::MIN
    } else {
        n as i64
    }
}

fn cut_divide(a: i128, b: i128) -> (r: i128)
    requires
        b != 0,
        a > i128::MIN,
        b > i128::MIN,
    ensures
        r == cut_quotient(a as int, b as int),
{
    let m: i128 = if a < 0 { -a } else { a };
    let d: i128 = if b < 0 { -b } else { b };
    let q: i128 = m / d;
    assert(0 <= q <= m) by {
        vstd::arithmetic::div_mod::lemma_div_pos_is_pos(m as int, d as int);
        vstd::arithmetic::div_mod::lemma_div_nonincreasing(m as int, d as int);
    }
    if (a < 0) == (b < 0) {
        q
    } else {
        -q
    }
}

/// What is left of `n` millionths above the next integral value below.
fn millionths(n: i128) -> (r: i128)
    requires
        n > i128::MIN,
    ensures
        r == (n as int) % 1_000_000,
{
    if n >= 0 {
        n % 1_000_000
    } else {
        let m: i128 = (-n) % 1_000_000;
        if m == 0 {
            0
        } else {
            1_000_000 - m
        }
    }
}

/// Whether `r` is the square root of `n` without its fraction.
pub open spec fn is_root(n: int, r: int) -> bool {
    0 <= r && r * r <= n && n < (r + 1) * (r + 1)
}

proof fn lemma_root_unique(n: int, r: int, s: int)
    requires
        is_root(n, r),
        is_root(n, s),
    ensures
        r == s,
{
    if r < s {
        assert((r + 1) * (r + 1) <= s * s) by (nonlinear_arith)
            requires
                0 <= r < s,
        ;
    } else if s < r {
        assert((s + 1) * (s + 1) <= r * r) by (nonlinear_arith)
            requires
                0 <= s < r,
        ;
    }
}

/// The square root of `n` without its fraction.
pub open spec fn root(n: int) -> int {
    choose|r: int| is_root(n, r)
}

/// Finds the square root by halving an interval.
fn find_root(n: i128) -> (r: i128)
    requires
        0 <= n < 16_000_000_000_000_000_000_000_000,
    ensures
        r == root(n as int),
        0 <= r < 4_000_000_000_000,
{
    let mut lo: i128 = 0;
    let mut hi: i128 = 4_000_000_000_000;
    assert(hi * hi == 16_000_000_000_000_000_000_000_000) by (nonlinear_arith)
        requires
            hi == 4_000_000_000_000,
    ;
    while hi - lo > 1
        invariant
            0 <= lo < hi <= 4_000_000_000_000,
            lo * lo <= n < hi * hi,
        decreases hi - lo,
    {
        let mid: i128 = lo + (hi - lo) / 2;
        assert(0 <= mid * mid <= 16_000_000_000_000_000_000_000_000) by (nonlinear_arith)
            requires
                0 <= mid <= 4_000_000_000_000,
        ;
        if mid * mid <= n {
            lo = mid;
        } else {
            hi = mid;
        }
    }
    proof {
        assert(hi == lo + 1);
        assert(is_root(n as int, lo as int));
        lemma_root_unique(n as int, lo as int, root(n as int));
    }
    lo
}

/// An angle brought within half a turn of zero, both in millionths.
pub open spec fn turned(units: int) -> int {
    let m = units % 6_283_185;
    if m > 3_141_592 {
        m - 6_283_185
    } else {
        m
    }
}

fn turn(units: i64) -> (r: i64)
    ensures
        r == turned(units as int),
{
    let n: i128 = units as i128;
    let m: i128 = if n >= 0 {
        n % 6_283_185
    } else {
        let k: i128 = (-n) % 6_283_185;
        if k == 0 {
            0
        } else {
            6_283_185 - k
        }
    };
    if m > 3_141_592 {
        (m - 6_283_185) as i64
    } else {
        m as i64
    }
}

/// One step of a nested series: `1 + t / d * rest`.
pub open spec fn nested(t: Fixed, d: int, rest: Fixed) -> Fixed {
    Fixed::of_int(1) + (t / Fixed::of_int(d)) * rest
}

fn nest(t: Fixed, d: i128, rest: Fixed) -> (r: Fixed)
    ensures
        r == nested(t, d as int, rest),
{
    Fixed::from_int(1).plus(t.over(Fixed::from_int(d)).times(rest))
}

/// The cosine series of the angle whose negated square is `t`, up to the twelfth
/// power of the angle.
pub open spec fn cosine_series(t: Fixed) -> Fixed {
    nested(
        t,
        2,
        nested(t, 12, nested(t, 30, nested(t, 56, nested(t, 90, nested(t, 132, Fixed::of_int(1)))))),
    )
}

/// The exponential series up to the eighth power.
pub open spec fn exponential_series(t: Fixed) -> Fixed {
    nested(
        t,
        1,
        nested(
            t,
            2,
            nested(
                t,
                3,
                nested(
                    t,
                    4,
                    nested(t, 5, nested(t, 6, nested(t, 7, nested(t, 8, Fixed::of_int(1))))),
                ),
            ),
        ),
    )
}

/// The logarithm of a number from 1 up to 2, by the series of the inverse
/// hyperbolic tangent up to its eleventh power.
pub open spec fn logarithm_series(x: Fixed) -> Fixed {
    let one = Fixed::of_int(1);
    let z = (x - one) / (x + one);
    let t = z * z;
    (Fixed::of_int(2) * z) * (one + t * (one / Fixed::of_int(3) + t * (one / Fixed::of_int(5) + t * (
    one / Fixed::of_int(7) + t * (one / Fixed::of_int(9) + t * (one / Fixed::of_int(11)))))))
}

/// The logarithm of two.
pub open spec fn log_two() -> Fixed {
    Fixed::of_decimal(693147, 6)
}

/// The logarithm of `units` millionths: halved or doubled until it lies from 1 up
/// to 2, each step a logarithm of two.
pub open spec fn logarithm_of(units: int) -> Fixed
    decreases
            if units >= 2_000_000 {
                units
            } else if units < 1_000_000 {
                1_000_000 - units
            } else {
                0
            },
{
    if units <= 0 {
        Fixed { units: i64::MIN }
    } else if units >= 2_000_000 {
        logarithm_of(units / 2) + log_two()
    } else if units < 1_000_000 {
        logarithm_of(2 * units) - log_two()
    } else {
        logarithm_series(Fixed { units: units as i64 })
    }
}

fn find_logarithm(units: i64) -> (r: Fixed)
    ensures
        r == logarithm_of(units as int),
    decreases
            if units >= 2_000_000 {
                units as int
            } else if units < 1_000_000 {
                1_000_000 - units
            } else {
                0
            },
{
    if units <= 0 {
        Fixed { units: i64::MIN }
    } else if units >= 2_000_000 {
        find_logarithm(units / 2).plus(Fixed::from_decimal(693147, 6))
    } else if units < 1_000_000 {
        find_logarithm(2 * units).minus(Fixed::from_decimal(693147, 6))
    } else {
        let x: Fixed = Fixed { units };
        let one: Fixed = Fixed::from_int(1);
        let z: Fixed = x.minus(one).over(x.plus(one));
        let t: Fixed = z.times(z);
        let e9: Fixed = one.over(Fixed::from_int(9)).plus(t.times(one.over(Fixed::from_int(11))));
        let e7: Fixed = one.over(Fixed::from_int(7)).plus(t.times(e9));
        let e5: Fixed = one.over(Fixed::from_int(5)).plus(t.times(e7));
        let e3: Fixed = one.over(Fixed::from_int(3)).plus(t.times(e5));
        Fixed::from_int(2).times(z).times(one.plus(t.times(e3)))
    }
}

/// `units` doubled `n` times, or halved `-n` times, within the range of `i64`.
pub open spec fn scaled_by_two(units: i64, n: int) -> i64
    decreases if n < 0 { -n } else { n },
{
    if n > 0 {
        scaled_by_two(saturated(2 * units), n - 1)
    } else if n < 0 {
        scaled_by_two(saturated(cut_quotient(units as int, 2)), n + 1)
    } else {
        units
    }
}

fn scale_by_two(units: i64, n: i64) -> (r: i64)
    ensures
        r == scaled_by_two(units, n as int),
{
    let mut u: i64 = units;
    let mut left: i64 = n;
    while left != 0
        invariant
            scaled_by_two(u, left as int) == scaled_by_two(units, n as int),
        decreases if left < 0 { -left } else { left as int },
    {
        if left > 0 {
            u = saturate(2 * (u as i128));
            left = left - 1;
        } else {
            u = saturate(cut_divide(u as i128, 2));
            left = left + 1;
        }
    }
    u
}

impl Scalar for Fixed {
    open spec fn of_int(n: int) -> Self {
        Fixed { units: saturated(n * 1_000_000) }
    }

    open spec fn of_decimal(digits: int, places: nat) -> Self {
        Fixed { units: saturated(cut_quotient(digits * 1_000_000, pow(10, places))) }
    }

    open spec fn spec_add(self, rhs: Self) -> Self {
        Fixed { units: saturated(self.units + rhs.units) }
    }

    open spec fn spec_sub(self, rhs: Self) -> Self {
        Fixed { units: saturated(self.units - rhs.units) }
    }

    open spec fn spec_mul(self, rhs: Self) -> Self {
        Fixed { units: saturated(cut_quotient(self.units * rhs.units, 1_000_000)) }
    }

    open spec fn spec_euclidean_or_real_div(self, rhs: Self) -> Self {
        if rhs.units == 0 {
            Fixed {
                units: if self.units > 0 {
                    i64::MAX
                } else if self.units < 0 {
                    i64::MIN
                } else {
                    0
                },
            }
        } else {
            Fixed { units: saturated(cut_quotient(self.units * 1_000_000, rhs.units as int)) }
        }
    }

    open spec fn spec_neg(self) -> Self {
        Fixed { units: saturated(-self.units) }
    }

    open spec fn magnitude(self) -> Self {
        Fixed { units: if self.units < 0 { saturated(-self.units) } else { self.units } }
    }

    open spec fn rounded_down(self) -> Self {
        Fixed { units: saturated(self.units - (self.units as int) % 1_000_000) }
    }

    open spec fn rounded_up(self) -> Self {
        Fixed { units: saturated(self.units + (-(self.units as int)) % 1_000_000) }
    }

    /// The cosine series of the angle within half a turn.
    open spec fn cosine(self) -> Self {
        let x = Fixed { units: turned(self.units as int) as i64 };
        cosine_series(-(x * x))
    }

    /// Zero for a negative number.
    open spec fn square_root(self) -> Self {
        if self.units < 0 {
            Fixed { units: 0 }
        } else {
            Fixed { units: root(self.units * 1_000_000) as i64 }
        }
    }

    open spec fn logarithm(self) -> Self {
        logarithm_of(self.units as int)
    }

    /// The exponential series for the fraction, doubled or halved for the rest; no
    /// more than 64 steps, which reach either end of the range.
    open spec fn power_of_two(self) -> Self {
        let whole = self.rounded_down();
        let part = exponential_series((self - whole) * log_two());
        let n = cut_quotient(whole.units as int, 1_000_000);
        Fixed {
            units: scaled_by_two(
                part.units,
                if n > 64 {
                    64
                } else if n < -64 {
                    -64
                } else {
                    n
                },
            ),
        }
    }

    open spec fn spec_lt(self, rhs: Self) -> bool {
        self.units < rhs.units
    }

    open spec fn spec_le(self, rhs: Self) -> bool {
        self.units <= rhs.units
    }

    open spec fn equals(self, rhs: Self) -> bool {
        self.units == rhs.units
    }

    open spec fn undefined(self) -> bool {
        false
    }

    open spec fn finite(self) -> bool {
        true
    }

    open spec fn as_i32(self) -> i32 {
        let n = cut_quotient(self.units as int, 1_000_000);
        if n > i32::MAX {
            i32::MAX
        } else if n < i32::MIN {
            i32::MIN
        } else {
            n as i32
        }
    }

    open spec fn as_usize(self) -> usize {
        let n = cut_quotient(self.units as int, 1_000_000);
        if n > usize::MAX {
            usize::MAX
        } else if n < 0 {
            0
        } else {
            n as usize
        }
    }

    fn from_int(n: i128) -> (r: Self) {
        if n > 10_000_000_000_000 {
            Fixed { units: i64::MAX }
        } else if n < -10_000_000_000_000 {
            Fixed { units: i64::MIN }
        } else {
            Fixed { units: saturate(n * 1_000_000) }
        }
    }

    fn from_decimal(digits: i64, places: u32) -> (r: Self) {
        let mut scale: i128 = 1;
        proof {
            reveal(pow);
            lemma_ten_to_24();
        }
        for k in 0..places
            invariant
                places <= 24,
                scale == pow(10, k as nat),
                1 <= scale <= pow(10, 24),
                pow(10, 24) == 1_000_000_000_000_000_000_000_000,
        {
            proof {
                reveal(pow);
                vstd::arithmetic::power::lemma_pow_increases(10, (k + 1) as nat, 24);
                lemma_pow_positive(10, (k + 1) as nat);
            }
            scale = scale * 10;
        }
        Fixed { units: saturate(cut_divide(digits as i128 * 1_000_000, scale)) }
    }

    fn plus(self, rhs: Self) -> (r: Self) {
        Fixed { units: saturate(self.units as i128 + rhs.units as i128) }
    }

    fn minus(self, rhs: Self) -> (r: Self) {
        Fixed { units: saturate(self.units as i128 - rhs.units as i128) }
    }

    fn times(self, rhs: Self) -> (r: Self) {
        let a: i64 = self.units;
        let b: i64 = rhs.units;
        assert(-0x4000_0000_0000_0000_0000_0000_0000_0000 <= a * b
            <= 0x4000_0000_0000_0000_0000_0000_0000_0000) by (nonlinear_arith)
            requires
                -0x8000_0000_0000_0000 <= a <= 0x7fff_ffff_ffff_ffff,
                -0x8000_0000_0000_0000 <= b <= 0x7fff_ffff_ffff_ffff,
        ;
        Fixed { units: saturate(cut_divide(a as i128 * b as i128, 1_000_000)) }
    }

    fn over(self, rhs: Self) -> (r: Self) {
        if rhs.units == 0 {
            Fixed {
                units: if self.units > 0 {
                    i64::MAX
                } else if self.units < 0 {
                    i64::MIN
                } else {
                    0
                },
            }
        } else {
            Fixed { units: saturate(cut_divide(self.units as i128 * 1_000_000, rhs.units as i128)) }
        }
    }

    fn negated(self) -> (r: Self) {
        Fixed { units: saturate(-(self.units as i128)) }
    }

    fn abs(self) -> (r: Self) {
        if self.units < 0 {
            Fixed { units: saturate(-(self.units as i128)) }
        } else {
            self
        }
    }

    fn floor(self) -> (r: Self) {
        let low: i128 = millionths(self.units as i128);
        Fixed { units: saturate(self.units as i128 - low) }
    }

    fn ceil(self) -> (r: Self) {
        let high: i128 = millionths(-(self.units as i128));
        Fixed { units: saturate(self.units as i128 + high) }
    }

    fn cos(self) -> (r: Self) {
        let x: Fixed = Fixed { units: turn(self.units) };
        let t: Fixed = x.times(x).negated();
        nest(t, 2, nest(t, 12, nest(t, 30, nest(t, 56, nest(t, 90, nest(t, 132, Fixed::from_int(1)))))))
    }

    fn sqrt(self) -> (r: Self) {
        if self.units < 0 {
            Fixed { units: 0 }
        } else {
            Fixed { units: find_root(self.units as i128 * 1_000_000) as i64 }
        }
    }

    fn ln(self) -> (r: Self) {
        find_logarithm(self.units)
    }

    fn exp2(self) -> (r: Self) {
        let whole: Fixed = self.floor();
        let t: Fixed = self.minus(whole).times(Fixed::from_decimal(693147, 6));
        let high: Fixed = nest(t, 5, nest(t, 6, nest(t, 7, nest(t, 8, Fixed::from_int(1)))));
        let part: Fixed = nest(t, 1, nest(t, 2, nest(t, 3, nest(t, 4, high))));
        let n: i128 = cut_divide(whole.units as i128, 1_000_000);
        let steps: i64 = if n > 64 {
            64
        } else if n < -64 {
            -64
        } else {
            n as i64
        };
        Fixed { units: scale_by_two(part.units, steps) }
    }

    fn less(self, rhs: Self) -> (r: bool) {
        self.units < rhs.units
    }

    fn at_most(self, rhs: Self) -> (r: bool) {
        self.units <= rhs.units
    }

    fn same(self, rhs: Self) -> (r: bool) {
        self.units == rhs.units
    }

    fn is_nan(self) -> (r: bool) {
        false
    }

    fn is_finite(self) -> (r: bool) {
        true
    }

    fn to_i32(self) -> (r: i32) {
        let n: i128 = cut_divide(self.units as i128, 1_000_000);
        if n > i32::MAX as i128 {
            i32::MAX
        } else if n < i32::MIN as i128 {
            i32::MIN
        } else {
            n as i32
        }
    }

    fn to_usize(self) -> (r: usize) {
        let n: i128 = cut_divide(self.units as i128, 1_000_000);
        if n > usize::MAX as i128 {
            usize::MAX
        } else if n < 0 {
            0
        } else {
            n as usize
        }
    }
}

proof fn lemma_ten_to_24()
    ensures
        pow(10, 24) == 1_000_000_000_000_000_000_000_000,
{
    reveal_with_fuel(pow, 25);
}

/// Quotients by a positive number keep order and sign.
pub proof fn lemma_cut_quotient_ordered(a: int, b: int, d: int)
    requires
        a <= b,
        0 < d,
    ensures
        cut_quotient(a, d) <= cut_quotient(b, d),
        a >= 0 ==> cut_quotient(a, d) >= 0,
        a <= 0 ==> cut_quotient(a, d) <= 0,
{
    if a >= 0 {
        vstd::arithmetic::div_mod::lemma_div_pos_is_pos(a, d);
        vstd::arithmetic::div_mod::lemma_div_is_ordered(a, b, d);
    } else {
        vstd::arithmetic::div_mod::lemma_div_pos_is_pos(-a, d);
        if b < 0 {
            vstd::arithmetic::div_mod::lemma_div_is_ordered(-b, -a, d);
        } else {
            vstd::arithmetic::div_mod::lemma_div_pos_is_pos(b, d);
        }
        if a == 0 {
            vstd::arithmetic::div_mod::lemma_basic_div(0, d);
        }
    }
}

/// Law: fixed-point numbers are totally ordered.
pub proof fn law_fixed_is_totally_ordered()
    ensures
        totally_ordered::<Fixed>(),
{
}

/// Law: fixed-point numbers keep their order.
pub proof fn law_fixed_is_ordered()
    ensures
        ordered_numbers::<Fixed>(),
{
    let o = Fixed::of_int(0);
    assert(o.units == 0);
    assert forall|a: int, b: int| a <= b implies #[trigger] Fixed::of_int(a)
        <= #[trigger] Fixed::of_int(b) by {}
    assert forall|k: Fixed, x: Fixed, y: Fixed|
        #![trigger k * x, k * y]
        o < k && k.finite() && x.finite() && y.finite() && x <= y implies k * x <= k * y by {
        assert(k.units * x.units <= k.units * y.units) by (nonlinear_arith)
            requires
                k.units > 0,
                x.units <= y.units,
        ;
        lemma_cut_quotient_ordered(k.units * x.units, k.units * y.units, 1_000_000);
    }
    assert forall|d: Fixed, x: Fixed, y: Fixed|
        #![trigger x / d, y / d]
        o < d && d.finite() && x.finite() && y.finite() && x <= y implies x / d <= y / d by {
        lemma_cut_quotient_ordered(x.units * 1_000_000, y.units * 1_000_000, d.units as int);
    }
    assert forall|x: Fixed, y: Fixed| x <= y implies #[trigger] x.as_usize()
        <= #[trigger] y.as_usize() by {
        lemma_cut_quotient_ordered(x.units as int, y.units as int, 1_000_000);
    }
    assert forall|k: Fixed| o < k && k.finite() implies #[trigger] (k * o) == o by {
        assert(k.units * 0 == 0);
    }
    assert forall|d: Fixed| o < d && d.finite() implies #[trigger] (o / d) == o by {
        lemma_cut_quotient_ordered(0, 0, d.units as int);
    }
}

/// Law: fixed-point numbers are symmetric about zero.
pub proof fn law_fixed_is_mirrored()
    ensures
        mirrored_numbers::<Fixed>(),
{
    lemma_half();
    let h = Fixed::of_decimal(5, 1);
    assert forall|x: Fixed|
        #![trigger (-x)]
        x.finite() && Fixed::of_int(0) <= x && x <= Fixed::of_int(i32::MAX as int) implies {
        &&& !x.undefined() && !(-x).undefined()
        &&& -x - h == -(x + h)
        &&& (-(x + h)).rounded_up() == -((x + h).rounded_down())
        &&& (-((x + h).rounded_down())).as_i32() == -((x + h).rounded_down().as_i32())
        &&& Fixed::of_int(0) <= -x ==> (x + h).rounded_down().as_i32() == 0 && (-x
            + h).rounded_down().as_i32() == 0
    } by {
        let n = (x + h).units as int;
        assert(n == x.units + 500_000);
        assert((-(x + h)).units == -n);
        assert((x + h).rounded_down().units == n - n % 1_000_000);
    }
}

/// A half is five hundred thousand millionths.
pub proof fn lemma_half()
    ensures
        Fixed::of_decimal(5, 1).units == 500_000,
{
    vstd::arithmetic::power::lemma_pow1(10);
    assert(cut_quotient(5_000_000, 10) == 500_000);
}

/// Law: rounding a fixed-point number within the range of `i32` is symmetric about
/// zero.
pub proof fn law_fixed_rounding_is_symmetric(x: Fixed)
    requires
        -2_147_483_647_000_000 <= x.units <= 2_147_483_647_000_000,
    ensures
        rounded(-x) == -rounded(x),
{
    law_fixed_is_mirrored();
    if x.units >= 0 {
        law_rounding_is_symmetric(x);
    } else {
        law_rounding_is_symmetric(-x);
        assert(-(-x) == x);
    }
}

/// Law: of fixed-point frame times one millisecond apart each is nearest to its own
/// frame.
pub proof fn law_fixed_milliseconds_come_back(n: nat)
    requires
        n <= i32::MAX,
    ensures
        milliseconds_come_back::<Fixed>(n),
{
    lemma_half();
    let one = Fixed::of_int(1);
    assert forall|m: int| 0 <= m < n implies nearest_frame(
        #[trigger] frame_times(n, one)[m],
        n as int,
    ) == m by {
        let k = Fixed::of_int(m);
        assert(k.units == m * 1_000_000);
        let a = k * one;
        assert(a.units == m * 1_000_000) by {
            assert(k.units * one.units == (m * 1_000_000) * 1_000_000);
        }
        let t = a / Fixed::of_int(1000);
        assert(t.units == m * 1000);
        let b = t * Fixed::of_int(1000);
        assert(b.units == m * 1_000_000) by {
            assert(t.units * Fixed::of_int(1000).units == (m * 1000) * 1_000_000_000);
        }
        assert(rounded(b) == m) by {
            assert((b + Fixed::of_decimal(5, 1)).units == m * 1_000_000 + 500_000);
        }
    }
}

/// Law: with fixed-point numbers there is one frame for no sample, and never fewer
/// for more samples.
pub proof fn law_fixed_frame_count_grows(fs: int, a: int, b: int, frame_period: Fixed)
    requires
        0 < fs,
        0 <= a <= b,
        0 < frame_period.units,
    ensures
        frame_number(fs, 0, frame_period) == 1,
        1 <= frame_number(fs, a, frame_period) <= frame_number(fs, b, frame_period),
{
    law_fixed_is_ordered();
    law_frame_count_grows(fs, a, b, frame_period);
}

} // verus!
