//! Small numeric helpers shared by all stages.
use crate::scalar::{Scalar, mirrored_numbers};
use vstd::arithmetic::power2::{lemma_pow2_adds, lemma_pow2_pos, lemma2_to64, pow2};
use vstd::prelude::*;

verus! {

/// Zero.
pub open spec fn zero<T: Scalar>() -> T {
    T::of_int(0)
}

/// The small number that keeps denominators away from zero: `10^-12`.
pub open spec fn safe_guard<T: Scalar>() -> T {
    T::of_decimal(1, 12)
}

/// The ratio of a circle's circumference to its diameter.
pub open spec fn circle<T: Scalar>() -> T {
    T::of_decimal(3141592653589793, 15)
}

/// Zero as a number.
pub fn nought<T: Scalar>() -> (r: T)
    ensures
        r == zero::<T>(),
{
    T::from_int(0)
}

/// The small number as a number.
pub fn guard<T: Scalar>() -> (r: T)
    ensures
        r == safe_guard::<T>(),
{
    T::from_decimal(1, 12)
}

/// The ratio as a number.
pub fn pi<T: Scalar>() -> (r: T)
    ensures
        r == circle::<T>(),
{
    T::from_decimal(3141592653589793, 15)
}

/// The rows of a matrix as sequences.
pub open spec fn grid<T>(rows: Seq<Vec<T>>) -> Seq<Seq<T>> {
    Seq::new(rows.len(), |i: int| rows[i]@)
}

/// `n` copies of `v`.
pub open spec fn repeated<T>(n: nat, v: T) -> Seq<T> {
    Seq::new(n, |i: int| v)
}

/// A list of `n` copies of `v`.
pub fn filled<T: Copy>(n: usize, v: T) -> (r: Vec<T>)
    ensures
        r@ == repeated(n as nat, v),
{
    let mut r: Vec<T> = Vec::with_capacity(n);
    for i in 0..n
        invariant
            r@ == repeated(i as nat, v),
    {
        r.push(v);
    }
    r
}

/// A copy of `x`.
pub fn copied<T: Copy>(x: &[T]) -> (r: Vec<T>)
    ensures
        r@ == x@,
{
    let mut r: Vec<T> = Vec::with_capacity(x.len());
    for i in 0..x.len()
        invariant
            r@ == x@.take(i as int),
    {
        r.push(x[i]);
    }
    r
}

/// A matrix of `n` rows, each of them `width` copies of `v`.
pub fn filled_rows<T: Copy>(n: usize, width: usize, v: T) -> (r: Vec<Vec<T>>)
    ensures
        grid(r@) == repeated(n as nat, repeated(width as nat, v)),
{
    let mut r: Vec<Vec<T>> = Vec::with_capacity(n);
    for i in 0..n
        invariant
            r@.len() == i,
            forall|k: int| 0 <= k < i ==> (#[trigger] r@[k])@ == repeated(width as nat, v),
    {
        r.push(filled(width, v));
    }
    assert(grid(r@) =~= repeated(n as nat, repeated(width as nat, v)));
    r
}

/// The lesser of `x` and `y`.
pub fn my_min_i(x: i32, y: i32) -> (r: i32)
    ensures
        r == if x < y { x } else { y },
{
    if x < y {
        x
    } else {
        y
    }
}

/// The greater of `x` and `y`.
pub fn my_max_i(x: i32, y: i32) -> (r: i32)
    ensures
        r == if x > y { x } else { y },
{
    if x > y {
        x
    } else {
        y
    }
}

/// `x` where it is below `y`, else `y`.
pub open spec fn lesser<T: Scalar>(x: T, y: T) -> T {
    if x < y {
        x
    } else {
        y
    }
}

/// `x` where it is below `y`, else `y`.
pub fn my_min_f<T: Scalar>(x: T, y: T) -> (r: T)
    ensures
        r == lesser(x, y),
{
    if x.less(y) {
        x
    } else {
        y
    }
}

/// The absolute value of `x`.
pub fn my_abs_i(x: i32) -> (r: i32)
    requires
        x > i32::MIN,
    ensures
        r == if x > 0 { x as int } else { -x },
{
    if x > 0 {
        x
    } else {
        -x
    }
}

/// `x` rounded to the nearest integer, halves away from zero; 0 where `x` is
/// undefined.
pub open spec fn rounded<T: Scalar>(x: T) -> i32 {
    if x.undefined() {
        0
    } else if zero::<T>() <= x {
        (x + T::of_decimal(5, 1)).rounded_down().as_i32()
    } else {
        (x - T::of_decimal(5, 1)).rounded_up().as_i32()
    }
}

/// Rounds to the nearest integer, halves away from zero.
pub fn matlab_round<T: Scalar>(x: T) -> (r: i32)
    ensures
        r == rounded(x),
{
    if x.is_nan() {
        return 0;
    }
    let half: T = T::from_decimal(5, 1);
    if nought::<T>().at_most(x) {
        x.plus(half).floor().to_i32()
    } else {
        x.minus(half).ceil().to_i32()
    }
}

/// Law: rounding is symmetric about zero, for numbers that are.
pub proof fn law_rounding_is_symmetric<T: Scalar>(x: T)
    requires
        mirrored_numbers::<T>(),
        x.finite(),
        zero::<T>() <= x,
        x <= T::of_int(i32::MAX as int),
    ensures
        rounded(-x) == -rounded(x),
{
}

/// `n`, or 0 where it is negative.
pub open spec fn at_least_zero(n: i32) -> nat {
    if n > 0 {
        n as nat
    } else {
        0
    }
}

/// Replaces a negative number by 0.
pub fn clip_below_zero(n: i32) -> (r: usize)
    ensures
        r == at_least_zero(n),
{
    if n > 0 {
        n as usize
    } else {
        0
    }
}

/// Whether `n` is a power of two.
pub open spec fn is_power_of_two(n: int) -> bool {
    exists|k: nat| n == #[trigger] pow2(k)
}

/// Whether `n` is the least power of two that is not below `sample`.
pub open spec fn is_least_power(n: int, sample: int) -> bool {
    &&& is_power_of_two(n)
    &&& sample <= n
    &&& forall|m: int| #[trigger] is_power_of_two(m) && sample <= m ==> n <= m
}

/// The least power of two that is not below `sample`, as a number.
pub open spec fn least_power(sample: int) -> int {
    choose|n: int| is_least_power(n, sample)
}

/// There is only one least power.
pub proof fn lemma_least_power(n: int, sample: int)
    requires
        is_least_power(n, sample),
    ensures
        least_power(sample) == n,
{
    let m = least_power(sample);
    assert(is_least_power(m, sample));
    assert(is_power_of_two(m) && is_power_of_two(n));
}

/// The least power of two that is not below `sample`.
pub fn get_suitable_fft_size(sample: usize) -> (n: usize)
    requires
        sample <= usize::MAX / 2 + 1,
    ensures
        is_least_power(n as int, sample as int),
{
    let mut n: usize = 1;
    let ghost mut k: nat = 0;
    proof {
        lemma2_to64();
        assert(pow2(0) == 1);
    }
    assert(forall|j: nat| 0 < #[trigger] pow2(j)) by {
        assert forall|j: nat| 0 < #[trigger] pow2(j) by {
            lemma_pow2_pos(j);
        }
    }
    while n < sample
        invariant
            n == pow2(k),
            n >= 1,
            sample <= usize::MAX / 2 + 1,
            forall|j: nat| j < k ==> #[trigger] pow2(j) < sample,
        decreases usize::MAX - n,
    {
        proof {
            lemma_pow2_adds(k, 1);
            lemma2_to64();
            assert(pow2(k + 1) == 2 * pow2(k));
        }
        n = 2 * n;
        proof {
            k = k + 1;
        }
    }
    assert forall|m: int| is_power_of_two(m) && sample <= m implies n <= m by {
        let j = choose|j: nat| m == #[trigger] pow2(j);
        if j < k {
        } else if j > k {
            vstd::arithmetic::power2::lemma_pow2_strictly_increases(k, j);
        }
    }
    n
}

} // verus!
