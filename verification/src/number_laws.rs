//! What fixed-point numbers come to.
use crate::fixed::{
    Fixed, cut_quotient, exponential_series, is_root, log_two, logarithm_of, nested, root,
    saturated, scaled_by_two, turned,
};
use crate::scalar::Scalar;
use vstd::arithmetic::power::pow;
use vstd::prelude::*;

verus! {

/// Whether `n` is within the range of the units.
pub open spec fn in_range(n: int) -> bool {
    i64::MIN <= n <= i64::MAX
}

proof fn lemma_cut(a: int, b: int)
    requires
        0 < b,
    ensures
        ({
            let q = cut_quotient(a, b);
            &&& 0 <= a ==> b * q <= a < b * q + b
            &&& a <= 0 ==> b * q - b < a <= b * q
        }),
{
    let m = if a < 0 { -a } else { a };
    vstd::arithmetic::div_mod::lemma_fundamental_div_mod(m, b);
    vstd::arithmetic::div_mod::lemma_mod_bound(m, b);
    let q = m / b;
    assert(b * (-q) == -(b * q)) by (nonlinear_arith);
}

/// Law: sums and differences within the range are exact, and a whole number is that many
/// millions of units.
pub proof fn law_fixed_sums_are_exact(x: Fixed, y: Fixed, n: int)
    ensures
        in_range(x.units + y.units) ==> (x + y).units == x.units + y.units,
        in_range(x.units - y.units) ==> (x - y).units == x.units - y.units,
        in_range(n * 1_000_000) ==> Fixed::of_int(n).units == n * 1_000_000,
{
}

/// Law: a product or a quotient within the range, and a decimal, is off by less than one
/// unit, towards zero.
pub proof fn law_fixed_products_are_cut(x: Fixed, y: Fixed, digits: int, places: nat)
    requires
        0 < pow(10, places),
    ensures
        ({
            let (exact, p) = (x.units * y.units, (x * y).units as int);
            in_range(cut_quotient(exact, 1_000_000)) ==> {
                &&& 0 <= exact ==> 1_000_000 * p <= exact < 1_000_000 * p + 1_000_000
                &&& exact <= 0 ==> 1_000_000 * p - 1_000_000 < exact <= 1_000_000 * p
            }
        }),
        ({
            let (exact, q) = (x.units * 1_000_000, (x / y).units as int);
            0 < y.units && in_range(cut_quotient(exact, y.units as int)) ==> {
                &&& 0 <= exact ==> y.units * q <= exact < y.units * q + y.units
                &&& exact <= 0 ==> y.units * q - y.units < exact <= y.units * q
            }
        }),
        ({
            let (exact, d) = (digits * 1_000_000, Fixed::of_decimal(digits, places).units as int);
            let t = pow(10, places);
            in_range(cut_quotient(exact, t)) ==> {
                &&& 0 <= exact ==> t * d <= exact < t * d + t
                &&& exact <= 0 ==> t * d - t < exact <= t * d
            }
        }),
{
    lemma_cut(x.units * y.units, 1_000_000);
    if 0 < y.units {
        lemma_cut(x.units * 1_000_000, y.units as int);
    }
    lemma_cut(digits * 1_000_000, pow(10, places));
}

/// Law: the cosine repeats with every turn, does not tell an angle from its negation,
/// and is one at zero; the angle that it is taken of lies within half a turn and whole
/// turns away from the one given.
pub proof fn law_fixed_cosine_repeats(x: Fixed, y: Fixed, turns: int)
    ensures
        -3_141_592 <= turned(x.units as int) <= 3_141_592,
        (x.units - turned(x.units as int)) % 6_283_185 == 0,
        y.units == x.units + turns * 6_283_185 ==> y.cosine() == x.cosine(),
        y.units == -x.units ==> y.cosine() == x.cosine(),
        x.units == 0 ==> x.cosine().units == 1_000_000,
{
    let (u, v) = (x.units as int, y.units as int);
    let t = 6_283_185int;
    vstd::arithmetic::div_mod::lemma_fundamental_div_mod(u, t);
    if v == u + turns * t {
        vstd::arithmetic::div_mod::lemma_mod_multiples_vanish(turns, u, t);
        assert(t * turns + u == v) by (nonlinear_arith)
            requires
                v == u + turns * t,
                t == 6_283_185,
        ;
    }
    if v == -u {
        let a = Fixed { units: turned(u) as i64 };
        let b = Fixed { units: turned(v) as i64 };
        assert(turned(v) == -turned(u));
        let k = a.units as int;
        assert(k * k == (-k) * (-k)) by (nonlinear_arith);
        assert(b * b == a * a);
    }
    if u == 0 {
        let o = Fixed { units: 0 };
        assert(turned(0) == 0);
        assert(cut_quotient(0, 1_000_000) == 0);
        assert(o.units * o.units == 0) by (nonlinear_arith)
            requires
                o.units == 0,
        ;
        assert((o * o).units == 0);
        assert(o * o == o);
        assert(-o == o);
        assert(cut_quotient(0, 2_000_000) == 0);
        let half = o / Fixed::of_int(2);
        assert(half.units == 0);
        let rest = nested(
            o,
            12,
            nested(o, 30, nested(o, 56, nested(o, 90, nested(o, 132, Fixed::of_int(1))))),
        );
        assert(half.units * rest.units == 0) by (nonlinear_arith)
            requires
                half.units == 0,
        ;
        assert(x.cosine() == nested(o, 2, rest));
    }
}

proof fn lemma_root_exists(n: int) -> (r: int)
    requires
        0 <= n,
    ensures
        is_root(n, r),
    decreases n,
{
    if n == 0 {
        assert(is_root(0, 0)) by {
            assert(0int * 0int == 0);
        }
        0
    } else {
        let r = lemma_root_exists(n - 1);
        if n < (r + 1) * (r + 1) {
            r
        } else {
            assert((r + 1) * (r + 1) < (r + 2) * (r + 2)) by (nonlinear_arith)
                requires
                    0 <= r,
            ;
            r + 1
        }
    }
}

/// Law: a square root is off by less than one unit, towards zero.
pub proof fn law_fixed_roots_are_cut(x: Fixed)
    requires
        0 <= x.units,
    ensures
        ({
            let r = x.square_root().units as int;
            0 <= r && r * r <= x.units * 1_000_000 < (r + 1) * (r + 1)
        }),
{
    let n = x.units * 1_000_000;
    let r = lemma_root_exists(n);
    let s = root(n);
    assert(is_root(n, s));
    assert(s <= i64::MAX) by (nonlinear_arith)
        requires
            0 <= s,
            s * s <= n,
            n <= 9_223_372_036_854_775_807_000_000,
    ;
}

/// Law: doubling a number from one half on adds the logarithm of two to its logarithm.
pub proof fn law_fixed_logarithm_grows_by_doubling(units: int)
    requires
        500_000 <= units,
        in_range(logarithm_of(units).units + 693_147),
        in_range(logarithm_of(2 * units).units - 693_147),
    ensures
        units >= 1_000_000 ==> logarithm_of(2 * units).units == logarithm_of(units).units + 693_147,
        units < 1_000_000 ==> logarithm_of(units).units == logarithm_of(2 * units).units - 693_147,
        logarithm_of(1_000_000).units == 0,
{
    assert(log_two().units == 693_147) by {
        reveal_with_fuel(pow, 7);
        assert(pow(10, 6) == 1_000_000);
        lemma_cut(693_147_000_000, 1_000_000);
    }
    if units >= 1_000_000 {
        assert((2 * units) / 2 == units);
    }
    lemma_log_one();
}

proof fn lemma_log_one()
    ensures
        logarithm_of(1_000_000).units == 0,
{
    let one = Fixed::of_int(1);
    let x = Fixed { units: 1_000_000 };
    let z = (x - one) / (x + one);
    assert(cut_quotient(0, 2_000_000) == 0);
    assert(z.units == 0);
    let twice = Fixed::of_int(2) * z;
    assert(cut_quotient(0, 1_000_000) == 0);
    assert(twice.units == 0);
    assert forall|y: Fixed| (#[trigger] (twice * y)).units == 0 by {
        assert(twice.units * y.units == 0) by (nonlinear_arith)
            requires
                twice.units == 0,
        ;
    }
}

proof fn lemma_one_more_doubling(units: i64, n: int)
    requires
        0 <= n,
    ensures
        scaled_by_two(units, n + 1) == saturated(2 * scaled_by_two(units, n)),
    decreases n,
{
    if n > 0 {
        lemma_one_more_doubling(saturated(2 * units), n - 1);
    } else {
        reveal_with_fuel(scaled_by_two, 2);
    }
}

/// Law: a power of two doubles with every step of its exponent.
pub proof fn law_fixed_powers_double(x: Fixed, y: Fixed)
    requires
        0 <= x.units < 60_000_000,
        y.units == x.units + 1_000_000,
    ensures
        y.power_of_two().units == saturated(2 * x.power_of_two().units),
{
    let (u, v) = (x.units as int, y.units as int);
    assert(v % 1_000_000 == u % 1_000_000);
    let (a, b) = (x.rounded_down(), y.rounded_down());
    assert(a.units == u - u % 1_000_000);
    assert(b.units == a.units + 1_000_000);
    assert(x - a == y - b);
    lemma_cut(a.units as int, 1_000_000);
    lemma_cut(b.units as int, 1_000_000);
    let n = cut_quotient(a.units as int, 1_000_000);
    assert(cut_quotient(b.units as int, 1_000_000) == n + 1);
    let part = exponential_series((x - a) * log_two());
    lemma_one_more_doubling(part.units, n);
}

} // verus!
