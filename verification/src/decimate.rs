//! Reducing the rate of a signal: smoothing in both directions, then keeping
//! every `r`-th sample counted back from the last.
use crate::basics::{filled, nought, zero};
use crate::scalar::Scalar;
use vstd::prelude::*;

verus! {

/// The coefficients of a third-order recursive filter.
pub struct Recursion<T> {
    pub a0: T,
    pub a1: T,
    pub a2: T,
    pub b0: T,
    pub b1: T,
}

/// The low-pass filter for reduction by `r`, from 2 to 12; the filter that lets
/// nothing through for any other `r`.
pub open spec fn low_pass<T: Scalar>(r: int) -> Recursion<T> {
    if r == 2 {
        Recursion {
            a0: T::of_decimal(41156734567757189, 18),
            a1: T::of_decimal(-42599112459189636, 17),
            a2: T::of_decimal(41037215479961225, 18),
            b0: T::of_decimal(16797464681802227, 17),
            b1: T::of_decimal(50392394045406674, 17),
        }
    } else if r == 3 {
        Recursion {
            a0: T::of_decimal(95039378983237421, 17),
            a1: T::of_decimal(-67429146741526791, 17),
            a2: T::of_decimal(15412211621346475, 17),
            b0: T::of_decimal(71221945171178636, 18),
            b1: T::of_decimal(21366583551353591, 17),
        }
    } else if r == 4 {
        Recursion {
            a0: T::of_decimal(14499664446880227, 16),
            a1: T::of_decimal(-98943497080950582, 17),
            a2: T::of_decimal(24578252340690215, 17),
            b0: T::of_decimal(36710750339322612, 18),
            b1: T::of_decimal(11013225101796784, 17),
        }
    } else if r == 5 {
        Recursion {
            a0: T::of_decimal(17610939654280557, 16),
            a1: T::of_decimal(-12554914843859768, 16),
            a2: T::of_decimal(3237186507788215, 16),
            b0: T::of_decimal(21334858522387423, 18),
            b1: T::of_decimal(6400457556716227, 17),
        }
    } else if r == 6 {
        Recursion {
            a0: T::of_decimal(19715352749512141, 16),
            a1: T::of_decimal(-14686795689225347, 16),
            a2: T::of_decimal(3893908434965701, 16),
            b0: T::of_decimal(13469181309343825, 18),
            b1: T::of_decimal(40407543928031475, 18),
        }
    } else if r == 7 {
        Recursion {
            a0: T::of_decimal(21225239019534703, 16),
            a1: T::of_decimal(-16395144861046302, 16),
            a2: T::of_decimal(44469707800587366, 17),
            b0: T::of_decimal(90366882681608418, 19),
            b1: T::of_decimal(27110064804482525, 18),
        }
    } else if r == 8 {
        Recursion {
            a0: T::of_decimal(22357462340187593, 16),
            a1: T::of_decimal(-17780899984041358, 16),
            a2: T::of_decimal(49152555365968692, 17),
            b0: T::of_decimal(63522763407111993, 19),
            b1: T::of_decimal(19056829022133598, 18),
        }
    } else if r == 9 {
        Recursion {
            a0: T::of_decimal(23236003491759578, 16),
            a1: T::of_decimal(-18921545617463598, 16),
            a2: T::of_decimal(53148928133729068, 17),
            b0: T::of_decimal(46331164041389372, 19),
            b1: T::of_decimal(13899349212416812, 18),
        }
    } else if r == 10 {
        Recursion {
            a0: T::of_decimal(23936475118069387, 16),
            a1: T::of_decimal(-19873904075111861, 16),
            a2: T::of_decimal(5658879979027055, 16),
            b0: T::of_decimal(34818622251927556, 19),
            b1: T::of_decimal(10445586675578267, 18),
        }
    } else if r == 11 {
        Recursion {
            a0: T::of_decimal(2450743295230728, 15),
            a1: T::of_decimal(-206794904601978, 14),
            a2: T::of_decimal(59574774438332101, 17),
            b0: T::of_decimal(26822508007163792, 19),
            b1: T::of_decimal(80467524021491377, 19),
        }
    } else if r == 12 {
        Recursion {
            a0: T::of_decimal(24981398605924205, 16),
            a1: T::of_decimal(-21368928194784025, 16),
            a2: T::of_decimal(62187513816221485, 17),
            b0: T::of_decimal(21097275904709001, 19),
            b1: T::of_decimal(63291827714127002, 19),
        }
    } else {
        Recursion {
            a0: zero::<T>(),
            a1: zero::<T>(),
            a2: zero::<T>(),
            b0: zero::<T>(),
            b1: zero::<T>(),
        }
    }
}

fn make_low_pass<T: Scalar>(r: usize) -> (c: Recursion<T>)
    ensures
        c == low_pass::<T>(r as int),
{
    if r == 2 {
        Recursion {
            a0: T::from_decimal(41156734567757189, 18),
            a1: T::from_decimal(-42599112459189636, 17),
            a2: T::from_decimal(41037215479961225, 18),
            b0: T::from_decimal(16797464681802227, 17),
            b1: T::from_decimal(50392394045406674, 17),
        }
    } else if r == 3 {
        Recursion {
            a0: T::from_decimal(95039378983237421, 17),
            a1: T::from_decimal(-67429146741526791, 17),
            a2: T::from_decimal(15412211621346475, 17),
            b0: T::from_decimal(71221945171178636, 18),
            b1: T::from_decimal(21366583551353591, 17),
        }
    } else if r == 4 {
        Recursion {
            a0: T::from_decimal(14499664446880227, 16),
            a1: T::from_decimal(-98943497080950582, 17),
            a2: T::from_decimal(24578252340690215, 17),
            b0: T::from_decimal(36710750339322612, 18),
            b1: T::from_decimal(11013225101796784, 17),
        }
    } else if r == 5 {
        Recursion {
            a0: T::from_decimal(17610939654280557, 16),
            a1: T::from_decimal(-12554914843859768, 16),
            a2: T::from_decimal(3237186507788215, 16),
            b0: T::from_decimal(21334858522387423, 18),
            b1: T::from_decimal(6400457556716227, 17),
        }
    } else if r == 6 {
        Recursion {
            a0: T::from_decimal(19715352749512141, 16),
            a1: T::from_decimal(-14686795689225347, 16),
            a2: T::from_decimal(3893908434965701, 16),
            b0: T::from_decimal(13469181309343825, 18),
            b1: T::from_decimal(40407543928031475, 18),
        }
    } else if r == 7 {
        Recursion {
            a0: T::from_decimal(21225239019534703, 16),
            a1: T::from_decimal(-16395144861046302, 16),
            a2: T::from_decimal(44469707800587366, 17),
            b0: T::from_decimal(90366882681608418, 19),
            b1: T::from_decimal(27110064804482525, 18),
        }
    } else if r == 8 {
        Recursion {
            a0: T::from_decimal(22357462340187593, 16),
            a1: T::from_decimal(-17780899984041358, 16),
            a2: T::from_decimal(49152555365968692, 17),
            b0: T::from_decimal(63522763407111993, 19),
            b1: T::from_decimal(19056829022133598, 18),
        }
    } else if r == 9 {
        Recursion {
            a0: T::from_decimal(23236003491759578, 16),
            a1: T::from_decimal(-18921545617463598, 16),
            a2: T::from_decimal(53148928133729068, 17),
            b0: T::from_decimal(46331164041389372, 19),
            b1: T::from_decimal(13899349212416812, 18),
        }
    } else if r == 10 {
        Recursion {
            a0: T::from_decimal(23936475118069387, 16),
            a1: T::from_decimal(-19873904075111861, 16),
            a2: T::from_decimal(5658879979027055, 16),
            b0: T::from_decimal(34818622251927556, 19),
            b1: T::from_decimal(10445586675578267, 18),
        }
    } else if r == 11 {
        Recursion {
            a0: T::from_decimal(2450743295230728, 15),
            a1: T::from_decimal(-206794904601978, 14),
            a2: T::from_decimal(59574774438332101, 17),
            b0: T::from_decimal(26822508007163792, 19),
            b1: T::from_decimal(80467524021491377, 19),
        }
    } else if r == 12 {
        Recursion {
            a0: T::from_decimal(24981398605924205, 16),
            a1: T::from_decimal(-21368928194784025, 16),
            a2: T::from_decimal(62187513816221485, 17),
            b0: T::from_decimal(21097275904709001, 19),
            b1: T::from_decimal(63291827714127002, 19),
        }
    } else {
        Recursion {
            a0: nought::<T>(),
            a1: nought::<T>(),
            a2: nought::<T>(),
            b0: nought::<T>(),
            b1: nought::<T>(),
        }
    }
}


/// The inner value of the filter for sample `v`, given what it remembers.
pub open spec fn inner<T: Scalar>(c: Recursion<T>, v: T, w: (T, T, T)) -> T {
    ((v + c.a0 * w.0) + c.a1 * w.1) + c.a2 * w.2
}

/// The inner values of the three samples before `i`, latest first.
pub open spec fn memory<T: Scalar>(c: Recursion<T>, x: Seq<T>, i: int) -> (T, T, T)
    decreases i,
{
    if i <= 0 {
        (zero::<T>(), zero::<T>(), zero::<T>())
    } else {
        let w = memory(c, x, i - 1);
        (inner(c, x[i - 1], w), w.0, w.1)
    }
}

/// The output of the filter for sample `v`.
pub open spec fn outer<T: Scalar>(c: Recursion<T>, v: T, w: (T, T, T)) -> T {
    ((c.b0 * inner(c, v, w) + c.b1 * w.0) + c.b1 * w.1) + c.b0 * w.2
}

/// The output of the filter.
pub open spec fn passed<T: Scalar>(c: Recursion<T>, x: Seq<T>) -> Seq<T> {
    Seq::new(x.len(), |i: int| outer(c, x[i], memory(c, x, i)))
}

/// Sends `x` through the low-pass filter for reduction by `r`. Entries of `y`
/// beyond the length of `x` stay.
pub fn filter_for_decimate<T: Scalar>(x: &[T], r: usize, y: &mut Vec<T>)
    requires
        x@.len() <= old(y)@.len(),
    ensures
        final(y)@ == passed(low_pass::<T>(r as int), x@) + old(y)@.skip(x@.len() as int),
{
    let ghost before = y@;
    let c: Recursion<T> = make_low_pass(r);
    let mut w0: T = nought();
    let mut w1: T = nought();
    let mut w2: T = nought();
    for i in 0..x.len()
        invariant
            c == low_pass::<T>(r as int),
            x@.len() <= before.len() == y@.len(),
            (w0, w1, w2) == memory(c, x@, i as int),
            forall|k: int|
                0 <= k < before.len() ==> #[trigger] y@[k] == if k < i {
                    outer(c, x@[k], memory(c, x@, k))
                } else {
                    before[k]
                },
    {
        let wt: T = x[i].plus(c.a0.times(w0)).plus(c.a1.times(w1)).plus(c.a2.times(w2));
        y[i] = c.b0.times(wt).plus(c.b1.times(w0)).plus(c.b1.times(w1)).plus(c.b0.times(w2));
        w2 = w1;
        w1 = w0;
        w0 = wt;
    }
    assert(y@ =~= passed(c, x@) + before.skip(x@.len() as int));
}

/// The lesser of two integers.
pub open spec fn least(a: int, b: int) -> int {
    if a < b {
        a
    } else {
        b
    }
}

/// `x` with nine samples more on either side, mirrored through its ends; beyond
/// the far end of a short signal the last sample is taken again.
pub open spec fn mirrored<T: Scalar>(x: Seq<T>) -> Seq<T> {
    let n = x.len() as int;
    Seq::new(
        (n + 18) as nat,
        |i: int|
            if i < 9 {
                T::of_int(2) * x[0] - x[least(9 - i, n - 1)]
            } else if i < 9 + n {
                x[i - 9]
            } else {
                T::of_int(2) * x[n - 1] - x[if n - 2 - (i - 9 - n) > 0 {
                    n - 2 - (i - 9 - n)
                } else {
                    0
                }]
            },
    )
}

/// `x` sent through the filter forwards and then backwards.
pub open spec fn both_ways<T: Scalar>(c: Recursion<T>, x: Seq<T>) -> Seq<T> {
    passed(c, passed(c, x).reverse()).reverse()
}

/// How many samples are kept of `n`.
pub open spec fn kept_number(n: int, r: int) -> int {
    (n - 1) / r + 1
}

/// The position of the `k`-th sample kept of `n`.
pub open spec fn kept_position(n: int, r: int, k: int) -> int {
    (n - 1) % r + r * k
}

/// What the reduction of `x` by `r` leaves of `y`.
pub open spec fn decimated<T: Scalar>(x: Seq<T>, r: int, y: Seq<T>) -> Seq<T> {
    let n = x.len() as int;
    Seq::new(
        y.len(),
        |k: int|
            if r <= 1 {
                if k < n {
                    x[k]
                } else {
                    y[k]
                }
            } else if n > 0 && k < kept_number(n, r) {
                both_ways(low_pass::<T>(r), mirrored(x))[9 + kept_position(n, r, k)]
            } else {
                y[k]
            },
    )
}

/// Law: the samples kept lie within the signal, `r` apart, and the last of them
/// is the last of the signal.
pub proof fn law_kept_positions(n: int, r: int, k: int)
    requires
        0 < n,
        0 < r,
        0 <= k < kept_number(n, r),
    ensures
        0 <= kept_position(n, r, k) < n,
        kept_position(n, r, k + 1) == kept_position(n, r, k) + r,
        kept_position(n, r, kept_number(n, r) - 1) == n - 1,
        1 <= kept_number(n, r) <= n,
{
    vstd::arithmetic::div_mod::lemma_fundamental_div_mod(n - 1, r);
    vstd::arithmetic::div_mod::lemma_mod_bound(n - 1, r);
    vstd::arithmetic::div_mod::lemma_div_nonincreasing(n - 1, r);
    vstd::arithmetic::div_mod::lemma_div_pos_is_pos(n - 1, r);
    let last = (n - 1) / r;
    assert(0 <= r * k <= r * last) by (nonlinear_arith)
        requires
            0 < r,
            0 <= k <= last,
    ;
    assert(r * (k + 1) == r * k + r) by (nonlinear_arith);
}

fn reversed<T: Copy>(x: &[T]) -> (y: Vec<T>)
    ensures
        y@ == x@.reverse(),
{
    let n: usize = x.len();
    let mut y: Vec<T> = Vec::with_capacity(n);
    for i in 0..n
        invariant
            n == x@.len(),
            y@ == x@.reverse().take(i as int),
    {
        y.push(x[n - 1 - i]);
    }
    assert(x@.reverse().take(n as int) =~= x@.reverse());
    y
}

fn mirror<T: Scalar>(x: &[T]) -> (t: Vec<T>)
    requires
        0 < x@.len(),
        x@.len() + 18 <= usize::MAX,
    ensures
        t@ == mirrored(x@),
{
    let n: usize = x.len();
    let two: T = T::from_int(2);
    let first: T = two.times(x[0]);
    let last: T = two.times(x[n - 1]);
    let mut t: Vec<T> = Vec::with_capacity(n + 18);
    for i in 0..9usize
        invariant
            n == x@.len() > 0,
            first == T::of_int(2) * x@[0],
            t@ == mirrored(x@).take(i as int),
    {
        let idx: usize = if 9 - i < n - 1 { 9 - i } else { n - 1 };
        t.push(first.minus(x[idx]));
    }
    for i in 0..n
        invariant
            n == x@.len() > 0,
            t@ == mirrored(x@).take(9 + i),
    {
        t.push(x[i]);
    }
    for j in 0..9usize
        invariant
            n == x@.len() > 0,
            last == T::of_int(2) * x@[n - 1],
            t@ == mirrored(x@).take(9 + n + j),
    {
        let src: usize = if n >= 2 && n - 2 > j { n - 2 - j } else { 0 };
        t.push(last.minus(x[src]));
    }
    assert(mirrored(x@).take(18 + n) =~= mirrored(x@));
    t
}

/// Writes into `y` every `r`-th smoothed sample of `x`, the last of them the last
/// of `x`; entries of `y` beyond these stay. With `r` at most 1 the samples are
/// copied as they are.
pub fn decimate_world<T: Scalar>(x: &[T], r: usize, y: &mut Vec<T>)
    requires
        x@.len() + 18 + r <= usize::MAX,
    ensures
        final(y)@ == decimated(x@, r as int, old(y)@),
{
    let ghost before = y@;
    let x_length: usize = x.len();
    let size: usize = y.len();
    if r <= 1 {
        let n: usize = if x_length < size { x_length } else { size };
        for i in 0..n
            invariant
                n <= x@.len(),
                n <= before.len() == y@.len(),
                forall|k: int|
                    0 <= k < before.len() ==> #[trigger] y@[k] == if k < i {
                        x@[k]
                    } else {
                        before[k]
                    },
        {
            y[i] = x[i];
        }
        assert(y@ =~= decimated(x@, r as int, before));
        return;
    }
    if x_length == 0 || size == 0 {
        assert(y@ =~= decimated(x@, r as int, before));
        return;
    }
    let ghost c = low_pass::<T>(r as int);
    let tmp1: Vec<T> = mirror(x);
    let mut tmp2: Vec<T> = filled(tmp1.len(), nought());
    filter_for_decimate(&tmp1, r, &mut tmp2);
    assert(tmp2@ =~= passed(c, mirrored(x@)));
    let tmp1: Vec<T> = reversed(&tmp2);
    filter_for_decimate(&tmp1, r, &mut tmp2);
    assert(tmp2@ =~= passed(c, tmp1@));
    let smooth: Vec<T> = reversed(&tmp2);
    assert(smooth@ =~= both_ways(c, mirrored(x@)));

    let ghost n = x_length as int;
    let ghost rate = r as int;
    proof {
        law_kept_positions(n, rate, 0);
    }
    let nout: usize = (x_length - 1) / r + 1;
    let most: usize = if nout < size { nout } else { size };
    let mut idx: usize = 9 + (x_length - 1) % r;
    assert(rate * 0 == 0);
    for count in 0..most
        invariant
            r >= 2,
            rate == r,
            n == x_length == x@.len() > 0,
            n + 18 + r <= usize::MAX,
            nout == kept_number(n, rate),
            most <= nout,
            most <= before.len() == y@.len(),
            smooth@ == both_ways(low_pass::<T>(rate), mirrored(x@)),
            idx == 9 + kept_position(n, rate, count as int),
            forall|k: int|
                0 <= k < before.len() ==> #[trigger] y@[k] == if k < count {
                    smooth@[9 + kept_position(n, rate, k)]
                } else {
                    before[k]
                },
    {
        proof {
            law_kept_positions(n, rate, count as int);
        }
        y[count] = smooth[idx];
        idx = idx + r;
    }
    assert(y@ =~= decimated(x@, r as int, before));
}

} // verus!
