//! What single steps mean, for numbers that are read exactly.
use crate::basics::{repeated, rounded, safe_guard, zero};
use crate::crossing::{
    accepted, crossing_lists, edges, falls_at, fine_edge, fine_edges, flipped, interval_frequencies,
    interval_list, interval_number, interval_times, mean_of_four, one_less, stepped,
};
use crate::decimate::{
    self, Recursion, decimated, kept_number, kept_position, low_pass, mirrored,
};
use crate::extension::total;
use crate::filter_laws::lemma_reads;
use crate::harvest::{
    frame_number, frame_times, nearest_frame, output_contour, output_times, unit_period,
};
use crate::interpolation::{law_lookup_moves_forward, looked_up, on_line, reached, upper_node};
use crate::scalar::{Scalar, exact, exact_rounding};
use crate::spectrum::{Complex, product, unscaled};
use crate::waveform::{
    law_reduced_positions, lead, lemma_lead, lengthened, reduced, reduced_sample, waveform,
};
use vstd::arithmetic::power::pow;
use vstd::prelude::*;

verus! {

/// Products by a number that is not negative keep order.
pub proof fn lemma_mul_le(a: real, b: real, c: real)
    requires
        a <= b,
        0real <= c,
    ensures
        a * c <= b * c,
{
    assert(a * c <= b * c) by (nonlinear_arith)
        requires
            a <= b,
            0real <= c,
    ;
}

/// Products by a positive number keep strict order.
pub proof fn lemma_mul_lt(a: real, b: real, c: real)
    requires
        a < b,
        0real < c,
    ensures
        a * c < b * c,
{
    assert(a * c < b * c) by (nonlinear_arith)
        requires
            a < b,
            0real < c,
    ;
}

/// Products distribute over sums and differences, and commute.
pub proof fn lemma_distribute(a: real, b: real, c: real)
    ensures
        (a + b) * c == a * c + b * c,
        (a - b) * c == a * c - b * c,
        a * c == c * a,
{
    assert((a + b) * c == a * c + b * c) by (nonlinear_arith);
    assert((a - b) * c == a * c - b * c) by (nonlinear_arith);
    assert(a * c == c * a) by (nonlinear_arith);
}

/// Products associate.
pub proof fn lemma_associate(a: real, b: real, c: real)
    ensures
        (a * b) * c == a * (b * c),
{
    assert((a * b) * c == a * (b * c)) by (nonlinear_arith);
}

/// The first powers of ten.
pub proof fn lemma_small_tens()
    ensures
        pow(10, 1) == 10,
        pow(10, 2) == 100,
        pow(10, 3) == 1000,
        pow(10, 6) == 1_000_000,
{
    reveal_with_fuel(pow, 7);
}

/// Rounding goes to a whole number no more than a half away.
pub proof fn lemma_rounded<T: Scalar>(x: T, value: spec_fn(T) -> real)
    requires
        exact(value),
        exact_rounding(value),
        -2_000_000_000real <= value(x) <= 2_000_000_000real,
    ensures
        ({
            let n = rounded(x) as int as real;
            n - value(x) <= 1real / 2real && value(x) - n <= 1real / 2real
        }),
{
    let h = T::of_decimal(5, 1);
    lemma_small_tens();
    lemma_reads(value, 5, 1, 10);
    assert(value(h) == 1real / 2real);
    if value(x) >= 0real {
        let n = (x + h).rounded_down();
    } else {
        let n = (x - h).rounded_up();
    }
}

/// Law: frames are counted in whole periods: the last frame starts within the signal, or
/// at its end, and one more would not.
pub proof fn law_frames_cover_the_signal<T: Scalar>(
    fs: int,
    x_length: int,
    period: T,
    value: spec_fn(T) -> real,
)
    requires
        exact(value),
        exact_rounding(value),
        0 < fs,
        0 <= x_length,
        1000real * (x_length as real) <= 2_000_000_000real * (fs as real),
        value(period) >= 1real,
    ensures
        ({
            let n = frame_number(fs, x_length, period) as real;
            let milliseconds = 1000real * (x_length as real) / (fs as real);
            (n - 1real) * value(period) <= milliseconds && milliseconds < n * value(period)
        }),
{
    let a = T::of_int(1000) * T::of_int(x_length);
    let b = a / T::of_int(fs);
    let c = b / period;
    let f = fs as real;
    let m = 1000real * (x_length as real) / f;
    assert(value(a) == 1000real * (x_length as real));
    assert(value(b) * f == value(a));
    assert(value(b) == m) by (nonlinear_arith)
        requires
            value(b) * f == 1000real * (x_length as real),
            m == 1000real * (x_length as real) / f,
            f > 0real,
    ;
    let p = value(period);
    assert(value(c) * p == m);
    assert(0real <= m <= 2_000_000_000real) by (nonlinear_arith)
        requires
            value(b) * f == 1000real * (x_length as real),
            1000real * (x_length as real) <= 2_000_000_000real * f,
            0real <= 1000real * (x_length as real),
            value(b) == m,
            f > 0real,
    ;
    assert(0real <= value(c) <= m) by (nonlinear_arith)
        requires
            value(c) * p == m,
            1real <= p,
            0real <= m,
    ;
    let k = c.as_usize() as int as real;
    lemma_mul_le(k, value(c), p);
    lemma_mul_lt(value(c), k + 1real, p);
}

/// Law: the frames asked for lie whole periods apart, and each takes its frequency from
/// the frame, one millisecond apart from the next, whose time is no more than half a
/// millisecond from its own; behind the last frame, from the last.
pub proof fn law_output_picks_the_nearest_millisecond<T: Scalar>(
    basic: Seq<T>,
    own: nat,
    period: T,
    i: int,
    value: spec_fn(T) -> real,
) -> (k: int)
    requires
        exact(value),
        exact_rounding(value),
        !unit_period(period),
        0 < basic.len() <= i32::MAX,
        0 <= i < own,
        0real <= (i as real) * value(period) <= 2_000_000_000real,
    ensures
        value(output_times(basic.len(), own, period)[i]) * 1000real == (i as real) * value(period),
        0 <= k < basic.len(),
        output_contour(basic, own, period)[i] == basic[k],
        (k as real) - (i as real) * value(period) <= 1real / 2real,
        (i as real) * value(period) - (k as real) <= 1real / 2real || k == basic.len() - 1,
{
    let t = frame_times(own, period)[i];
    let u = t * T::of_int(1000);
    assert(value(T::of_int(i) * period) == (i as real) * value(period));
    assert(value(t) * 1000real == (i as real) * value(period));
    assert(value(u) == value(t) * 1000real);
    lemma_rounded(u, value);
    nearest_frame(t, basic.len() as int)
}


/// Entry `j` of `s` as a real, zero before the first.
pub open spec fn entry<T>(s: Seq<T>, j: int, value: spec_fn(T) -> real) -> real {
    if 0 <= j {
        value(s[j])
    } else {
        0real
    }
}

/// Whether `y` is what a recursive filter of third order makes of `x` at `i`: a sum of
/// inputs and of earlier outputs.
pub open spec fn recurs<T>(
    c: Recursion<T>,
    x: Seq<T>,
    y: Seq<T>,
    i: int,
    value: spec_fn(T) -> real,
) -> bool {
    entry(y, i, value) == value(c.b0) * entry(x, i, value) + value(c.b1) * entry(x, i - 1, value)
        + value(c.b1) * entry(x, i - 2, value) + value(c.b0) * entry(x, i - 3, value) + value(c.a0)
        * entry(y, i - 1, value) + value(c.a1) * entry(y, i - 2, value) + value(c.a2) * entry(
        y,
        i - 3,
        value,
    )
}

spec fn inner_at<T: Scalar>(c: Recursion<T>, x: Seq<T>, j: int, value: spec_fn(T) -> real) -> real {
    if 0 <= j {
        value(decimate::inner(c, x[j], decimate::memory(c, x, j)))
    } else {
        0real
    }
}

proof fn lemma_memory<T: Scalar>(c: Recursion<T>, x: Seq<T>, i: int, value: spec_fn(T) -> real)
    requires
        exact(value),
        0 <= i,
    ensures
        value(decimate::memory(c, x, i).0) == inner_at(c, x, i - 1, value),
        value(decimate::memory(c, x, i).1) == inner_at(c, x, i - 2, value),
        value(decimate::memory(c, x, i).2) == inner_at(c, x, i - 3, value),
{
    reveal_with_fuel(decimate::memory, 4);
    assert(value(zero::<T>()) == 0real);
}

/// The inner values undo the feedback.
proof fn lemma_inner<T: Scalar>(c: Recursion<T>, x: Seq<T>, i: int, value: spec_fn(T) -> real)
    requires
        exact(value),
    ensures
        inner_at(c, x, i, value) == entry(x, i, value) + value(c.a0) * inner_at(c, x, i - 1, value)
            + value(c.a1) * inner_at(c, x, i - 2, value) + value(c.a2) * inner_at(
            c,
            x,
            i - 3,
            value,
        ),
{
    if 0 <= i {
        lemma_memory(c, x, i, value);
        let w = decimate::memory(c, x, i);
        assert(value(c.a0 * w.0) == value(c.a0) * value(w.0));
        assert(value(c.a1 * w.1) == value(c.a1) * value(w.1));
        assert(value(c.a2 * w.2) == value(c.a2) * value(w.2));
    } else {
        assert(value(c.a0) * 0real == 0real) by (nonlinear_arith);
        assert(value(c.a1) * 0real == 0real) by (nonlinear_arith);
        assert(value(c.a2) * 0real == 0real) by (nonlinear_arith);
    }
}

spec fn weighted(b0: real, b1: real, w: (real, real, real, real)) -> real {
    b0 * w.0 + b1 * w.1 + b1 * w.2 + b0 * w.3
}

proof fn lemma_outer<T: Scalar>(c: Recursion<T>, x: Seq<T>, i: int, value: spec_fn(T) -> real)
    requires
        exact(value),
        i < x.len(),
    ensures
        entry(decimate::passed(c, x), i, value) == weighted(
            value(c.b0),
            value(c.b1),
            (
                inner_at(c, x, i, value),
                inner_at(c, x, i - 1, value),
                inner_at(c, x, i - 2, value),
                inner_at(c, x, i - 3, value),
            ),
        ),
{
    if 0 <= i {
        lemma_memory(c, x, i, value);
        let w = decimate::memory(c, x, i);
        let n = decimate::inner(c, x[i], w);
        assert(value(c.b0 * n) == value(c.b0) * value(n));
        assert(value(c.b1 * w.0) == value(c.b1) * value(w.0));
        assert(value(c.b1 * w.1) == value(c.b1) * value(w.1));
        assert(value(c.b0 * w.2) == value(c.b0) * value(w.2));
    } else {
        assert(value(c.b0) * 0real == 0real) by (nonlinear_arith);
        assert(value(c.b1) * 0real == 0real) by (nonlinear_arith);
    }
}

/// Factors change places.
pub proof fn lemma_swap(a: real, b: real, w: real)
    ensures
        a * (b * w) == b * (a * w),
{
    lemma_associate(a, b, w);
    lemma_associate(b, a, w);
    lemma_distribute(a, 0real, b);
}

proof fn lemma_weighted_scales(b0: real, b1: real, a: real, w: (real, real, real, real))
    ensures
        a * weighted(b0, b1, w) == weighted(b0, b1, (a * w.0, a * w.1, a * w.2, a * w.3)),
{
    lemma_sum_scales(a, b0 * w.0, b1 * w.1, b1 * w.2, b0 * w.3);
    lemma_swap(a, b0, w.0);
    lemma_swap(a, b1, w.1);
    lemma_swap(a, b1, w.2);
    lemma_swap(a, b0, w.3);
}

/// Products distribute over a sum of four.
pub proof fn lemma_sum_scales(b: real, p: real, q: real, r: real, s: real)
    ensures
        b * (p + q + r + s) == b * p + b * q + b * r + b * s,
{
    lemma_distribute(p, q, b);
    lemma_distribute(p + q, r, b);
    lemma_distribute(p + q + r, s, b);
    lemma_distribute(q, p, b);
    lemma_distribute(r, p, b);
    lemma_distribute(s, p, b);
    lemma_distribute(p + q + r + s, p, b);
}

/// Law: each output of the low-pass filter is the sum of the input and the three before
/// it, weighted by `b0`, `b1`, `b1`, `b0`, and of the three outputs before it, weighted
/// by `a0`, `a1`, `a2`.
pub proof fn law_low_pass_recurs<T: Scalar>(
    c: Recursion<T>,
    x: Seq<T>,
    i: int,
    value: spec_fn(T) -> real,
)
    requires
        exact(value),
        0 <= i < x.len(),
    ensures
        recurs(c, x, decimate::passed(c, x), i, value),
{
    let (a0, a1, a2) = (value(c.a0), value(c.a1), value(c.a2));
    let (b0, b1) = (value(c.b0), value(c.b1));
    let w = |j: int| inner_at(c, x, j, value);
    lemma_inner(c, x, i, value);
    lemma_inner(c, x, i - 1, value);
    lemma_inner(c, x, i - 2, value);
    lemma_inner(c, x, i - 3, value);
    lemma_outer(c, x, i, value);
    lemma_outer(c, x, i - 1, value);
    lemma_outer(c, x, i - 2, value);
    lemma_outer(c, x, i - 3, value);
    lemma_weighted_scales(b0, b1, a0, (w(i - 1), w(i - 2), w(i - 3), w(i - 4)));
    lemma_weighted_scales(b0, b1, a1, (w(i - 2), w(i - 3), w(i - 4), w(i - 5)));
    lemma_weighted_scales(b0, b1, a2, (w(i - 3), w(i - 4), w(i - 5), w(i - 6)));
    lemma_sum_scales(b0, entry(x, i, value), a0 * w(i - 1), a1 * w(i - 2), a2 * w(i - 3));
    lemma_sum_scales(b1, entry(x, i - 1, value), a0 * w(i - 2), a1 * w(i - 3), a2 * w(i - 4));
    lemma_sum_scales(b1, entry(x, i - 2, value), a0 * w(i - 3), a1 * w(i - 4), a2 * w(i - 5));
    lemma_sum_scales(b0, entry(x, i - 3, value), a0 * w(i - 4), a1 * w(i - 5), a2 * w(i - 6));
}

/// Law: a signal sent both ways through the low-pass filter runs through it once from
/// its first sample on and once from its last sample back.
pub proof fn law_low_pass_goes_both_ways<T: Scalar>(
    c: Recursion<T>,
    x: Seq<T>,
    value: spec_fn(T) -> real,
) -> (once: Seq<T>)
    requires
        exact(value),
    ensures
        once.len() == x.len(),
        decimate::both_ways(c, x).len() == x.len(),
        forall|i: int| 0 <= i < x.len() ==> #[trigger] recurs(c, x, once, i, value),
        forall|i: int|
            0 <= i < x.len() ==> #[trigger] recurs(
                c,
                once.reverse(),
                decimate::both_ways(c, x).reverse(),
                i,
                value,
            ),
{
    let once = decimate::passed(c, x);
    let back = decimate::passed(c, once.reverse());
    assert(decimate::both_ways(c, x).reverse() =~= back);
    assert forall|i: int| 0 <= i < x.len() implies #[trigger] recurs(c, x, once, i, value) by {
        law_low_pass_recurs(c, x, i, value);
    }
    assert forall|i: int| 0 <= i < x.len() implies #[trigger] recurs(
        c,
        once.reverse(),
        decimate::both_ways(c, x).reverse(),
        i,
        value,
    ) by {
        law_low_pass_recurs(c, once.reverse(), i, value);
    }
    once
}

/// Law: before its rate is reduced a signal is continued beyond either end by nine
/// samples, turned about the end sample.
pub proof fn law_signal_is_turned_about_its_ends<T: Scalar>(
    x: Seq<T>,
    j: int,
    value: spec_fn(T) -> real,
)
    requires
        exact(value),
        0 < x.len(),
        1 <= j <= 9,
        j < x.len(),
    ensures
        ({
            let n = x.len() as int;
            let t = decimate::mirrored(x);
            &&& t.len() == n + 18
            &&& forall|i: int| 0 <= i < n ==> #[trigger] t[9 + i] == x[i]
            &&& value(t[9 - j]) + value(x[j]) == 2real * value(x[0])
            &&& value(t[9 + n - 1 + j]) + value(x[n - 1 - j]) == 2real * value(x[n - 1])
        }),
{
    let n = x.len() as int;
    let t = decimate::mirrored(x);
    assert forall|i: int| 0 <= i < n implies #[trigger] t[9 + i] == x[i] by {}
    assert(t[9 - j] == T::of_int(2) * x[0] - x[j]);
    assert(t[9 + n - 1 + j] == T::of_int(2) * x[n - 1] - x[n - 1 - j]);
}

proof fn lemma_totals_differ<T: Scalar>(
    s: Seq<T>,
    w: Seq<T>,
    mean: T,
    k: int,
    value: spec_fn(T) -> real,
)
    requires
        exact(value),
        0 <= k,
        forall|i: int| 0 <= i < k ==> #[trigger] w[i] == s[i] - mean,
    ensures
        value(total(zero::<T>(), w, 0, k)) == value(total(zero::<T>(), s, 0, k)) - (k as real) * value(
            mean,
        ),
    decreases k,
{
    if k > 0 {
        lemma_totals_differ(s, w, mean, k - 1, value);
        assert(w[k - 1] == s[k - 1] - mean);
        lemma_distribute((k - 1) as real, 1real, value(mean));
        assert((k as real) == (k - 1) as real + 1real);
    } else {
        assert(0real * value(mean) == 0real) by (nonlinear_arith);
    }
}

/// Law: the samples of the waveform add up to zero, the differences between them are
/// those of the signal at its rate, and zeros follow them.
pub proof fn law_waveform_has_no_mean<T: Scalar>(
    x: Seq<T>,
    y_length: int,
    fft_size: int,
    ratio: int,
    i: int,
    j: int,
    value: spec_fn(T) -> real,
)
    requires
        exact(value),
        0 < y_length <= fft_size,
        0 <= i < y_length,
        0 <= j < y_length,
        0 < ratio,
        ratio == 1 ==> y_length <= x.len(),
    ensures
        ({
            let w = waveform(x, y_length, fft_size, ratio);
            let s = |k: int| if ratio == 1 { x[k] } else { reduced_sample(x, ratio, k) };
            &&& w.len() == fft_size
            &&& value(total(zero::<T>(), w, 0, y_length)) == 0real
            &&& value(w[i]) - value(w[j]) == value(s(i)) - value(s(j))
            &&& forall|k: int| y_length <= k < fft_size ==> #[trigger] w[k] == zero::<T>()
        }),
{
    let r = reduced(x, y_length, ratio, repeated(fft_size as nat, zero::<T>()));
    let w = waveform(x, y_length, fft_size, ratio);
    let mean = total(zero::<T>(), r, 0, y_length) / T::of_int(y_length);
    lemma_totals_differ(r, w, mean, y_length, value);
    lemma_distribute(value(mean), 0real, y_length as real);
    assert(w[i] == r[i] - mean && w[j] == r[j] - mean);
}

/// Law: complex numbers are multiplied as such: one leaves the other factor as it is, the
/// imaginary unit turns it by a quarter, and the order of the factors does not matter.
pub proof fn law_products_are_complex<T: Scalar>(
    a: Complex<T>,
    b: Complex<T>,
    value: spec_fn(T) -> real,
)
    requires
        exact(value),
    ensures
        ({
            let p = product(a, b);
            let q = product(b, a);
            let (ar, ai, br, bi) = (value(a.re), value(a.im), value(b.re), value(b.im));
            let (pr, pi) = (value(p.re), value(p.im));
            &&& pr == value(q.re) && pi == value(q.im)
            &&& bi == 0real ==> pr == ar * br && pi == ai * br
            &&& br == 0real ==> pr == -(ai * bi) && pi == ar * bi
        }),
{
    let (ar, ai, br, bi) = (value(a.re), value(a.im), value(b.re), value(b.im));
    let p = product(a, b);
    let q = product(b, a);
    assert(value(p.re) == ar * br - ai * bi);
    assert(value(p.im) == ar * bi + ai * br);
    assert(value(q.re) == br * ar - bi * ai);
    assert(value(q.im) == br * ai + bi * ar);
    lemma_distribute(ar, 0real, br);
    lemma_distribute(ai, 0real, bi);
    lemma_distribute(ar, 0real, bi);
    lemma_distribute(ai, 0real, br);
    lemma_nothing(ai);
    lemma_nothing(ar);
}

/// A product with zero is zero.
pub proof fn lemma_nothing(a: real)
    ensures
        a * 0real == 0real,
        0real * a == 0real,
{
    assert(a * 0real == 0real) by (nonlinear_arith);
    assert(0real * a == 0real) by (nonlinear_arith);
}

/// Law: what an inverse transform of length `n` gave is divided by `n`.
pub proof fn law_transform_is_scaled<T: Scalar>(
    time: Seq<T>,
    n: int,
    out: Seq<T>,
    i: int,
    value: spec_fn(T) -> real,
)
    requires
        exact(value),
        0 < n,
        0 <= i < out.len(),
    ensures
        i < n ==> value(unscaled(time, n, out)[i]) * (n as real) == value(time[i]),
        n <= i ==> unscaled(time, n, out)[i] == out[i],
{
    if i < n {
        let s = T::of_int(1) / T::of_int(n);
        assert(value(s) * (n as real) == 1real);
        lemma_associate(value(time[i]), value(s), n as real);
        assert(value(time[i]) * 1real == value(time[i]));
    }
}

/// A product with a negated factor is negated.
pub proof fn lemma_negate(a: real, b: real)
    ensures
        (-a) * b == -(a * b),
{
    assert((-a) * b == -(a * b)) by (nonlinear_arith);
}

/// A common factor other than zero cancels.
pub proof fn lemma_cancel(a: real, b: real, c: real)
    requires
        a * c == b * c,
        c != 0real,
    ensures
        a == b,
{
    assert(a == b) by (nonlinear_arith)
        requires
            a * c == b * c,
            c != 0real,
    ;
}

/// Law: a zero crossing lies where the straight line through the samples on either side
/// of it meets zero, but for the small number that keeps its slope from vanishing: behind
/// the first of the two, counted from 1, and not behind the second.
pub proof fn law_crossing_lies_on_the_line<T: Scalar>(
    s: Seq<T>,
    e: int,
    value: spec_fn(T) -> real,
)
    requires
        exact(value),
        0 < e < s.len(),
        falls_at(s, e),
        value(s[e]) + value(safe_guard::<T>()) <= 0real,
    ensures
        ({
            let slope = value(s[e]) - value(s[e - 1]) + value(safe_guard::<T>());
            let at = value(fine_edge(s, e));
            &&& value(s[e - 1]) + (at - (e as real)) * slope == 0real
            &&& (e as real) < at <= (e as real) + 1real
        }),
{
    let g = safe_guard::<T>();
    let d = (s[e] - s[e - 1]) + g;
    let q = s[e - 1] / d;
    let (n, m) = (value(s[e - 1]), value(d));
    assert(value(zero::<T>()) == 0real);
    assert(0real < n && m <= -n);
    assert(value(q) * m == n);
    let k = value(q);
    assert(-1real <= k < 0real) by (nonlinear_arith)
        requires
            k * m == n,
            0real < n,
            m <= -n,
    ;
    lemma_negate(k, m);
    assert(value(fine_edge(s, e)) == (e as real) - k);
}

/// Law: the frequency of an interval is the rate over the distance between its two
/// crossings, but for the small number, and its time the middle between them.
pub proof fn law_intervals_are_measured<T: Scalar>(
    s: Seq<T>,
    n: int,
    fs: T,
    i: int,
    value: spec_fn(T) -> real,
)
    requires
        exact(value),
        0 <= i < interval_number(s, n),
        value(fs) != 0real,
    ensures
        ({
            let (from, to) = (
                value(fine_edge(s, edges(s, n)[i] as int)),
                value(fine_edge(s, edges(s, n)[i + 1] as int)),
            );
            let distance = to - from + value(safe_guard::<T>());
            &&& distance != 0real ==> value(interval_frequencies(s, n, fs)[i]) * distance == value(
                fs,
            )
            &&& value(interval_times(s, n, fs)[i]) * value(fs) * 2real == from + to
        }),
{
    let fine = fine_edges(s, n);
    assert(fine[i] == fine_edge(s, edges(s, n)[i] as int));
    assert(fine[i + 1] == fine_edge(s, edges(s, n)[i + 1] as int));
    let sum = (fine[i] + fine[i + 1]) / T::of_int(2);
    let t = sum / fs;
    assert(value(sum) * 2real == value(fine[i]) + value(fine[i + 1]));
    assert(value(t) * value(fs) == value(sum));
}

/// Law: the four lists measure the falling crossings of the signal, those of its
/// negation, those of its rise from sample to sample, at its peaks, and those of the
/// negation of that, at its dips.
pub proof fn law_four_lists_are_of_four_signals<T: Scalar>(
    s: Seq<T>,
    n: int,
    fs: T,
    value: spec_fn(T) -> real,
) -> (w: (Seq<T>, Seq<T>, Seq<T>))
    requires
        exact(value),
        0 < n <= s.len(),
    ensures
        ({
            let z = crossing_lists(s, n, fs);
            let (turned, rise, fall) = w;
            &&& z.negative == interval_list(s, n, fs)
            &&& z.positive == interval_list(turned, n, fs)
            &&& z.peak == interval_list(rise, n - 1, fs)
            &&& z.dip == interval_list(fall, n - 1, fs)
            &&& forall|i: int| 0 <= i < n ==> value(#[trigger] turned[i]) == -value(s[i])
            &&& forall|i: int|
                0 <= i < n - 1 ==> value(#[trigger] rise[i]) == value(s[i + 1]) - value(s[i])
            &&& forall|i: int|
                0 <= i < n - 1 ==> value(#[trigger] fall[i]) == value(s[i]) - value(s[i + 1])
        }),
{
    let turned = flipped(s, n);
    let rise = stepped(turned, n);
    let fall = flipped(rise, one_less(n));
    assert forall|i: int| 0 <= i < n - 1 implies value(#[trigger] rise[i]) == value(s[i + 1])
        - value(s[i]) by {
        assert(rise[i] == turned[i] - turned[i + 1]);
        assert(value(turned[i]) == -value(s[i]) && value(turned[i + 1]) == -value(s[i + 1]));
    }
    assert forall|i: int| 0 <= i < n - 1 implies value(#[trigger] fall[i]) == value(s[i]) - value(
        s[i + 1],
    ) by {
        assert(fall[i] == -rise[i]);
        assert(value(rise[i]) == value(s[i + 1]) - value(s[i]));
    }
    (turned, rise, fall)
}

/// Law: an accepted value is the mean of the four: four times it is their sum.
pub proof fn law_mean_of_four<T: Scalar>(a: T, b: T, c: T, d: T, value: spec_fn(T) -> real)
    requires
        exact(value),
    ensures
        value(mean_of_four(a, b, c, d)) * 4real == value(a) + value(b) + value(c) + value(d),
{
}

/// Law: a value is accepted exactly where it lies from the floor up to the ceiling and
/// within a tenth of the frequency of the channel.
pub proof fn law_values_are_accepted_within_bounds<T: Scalar>(
    v: T,
    floor: T,
    ceil: T,
    boundary: T,
    value: spec_fn(T) -> real,
)
    requires
        exact(value),
    ensures
        ({
            let (x, b) = (value(v), value(boundary));
            let within = value(floor) <= x <= value(ceil) && 9real * b <= 10real * x <= 11real * b;
            accepted(v, floor, ceil, boundary) == if within {
                v
            } else {
                zero::<T>()
            }
        }),
{
    lemma_small_tens();
    lemma_reads(value, 11, 1, 10);
    lemma_reads(value, 9, 1, 10);
    let (p, q) = (T::of_decimal(11, 1), T::of_decimal(9, 1));
    assert(value(p) == 11real / 10real && value(q) == 9real / 10real);
    let b = value(boundary);
    assert(b * (11real / 10real) == 11real * b / 10real) by (nonlinear_arith);
    assert(b * (9real / 10real) == 9real * b / 10real) by (nonlinear_arith);
}

/// Law: a looked-up value lies on the straight line through the two nodes used for it.
pub proof fn law_lookup_lies_on_the_line<T: Scalar>(
    x: Seq<T>,
    y: Seq<T>,
    k1: int,
    q: T,
    value: spec_fn(T) -> real,
)
    requires
        exact(value),
        0 < k1 < x.len(),
        x.len() == y.len(),
        0real < value(safe_guard::<T>()),
    ensures
        ({
            let dx = value(x[k1]) - value(x[k1 - 1]);
            let dy = value(y[k1]) - value(y[k1 - 1]);
            let v = value(on_line(x, y, k1, q));
            let g = value(safe_guard::<T>());
            if -g < dx < g {
                v == value(y[k1 - 1])
            } else {
                (v - value(y[k1 - 1])) * dx == (value(q) - value(x[k1 - 1])) * dy
            }
        }),
{
    let (x0, x1, y0, y1) = (x[k1 - 1], x[k1], y[k1 - 1], y[k1]);
    let dx = value(x1) - value(x0);
    let dy = value(y1) - value(y0);
    let g = value(safe_guard::<T>());
    if !(-g < dx < g) {
        let s = (q - x0) / (x1 - x0);
        assert(value(s) * dx == value(q) - value(x0));
        assert(value(s * (y1 - y0)) == value(s) * dy);
        lemma_associate(value(s), dy, dx);
        lemma_associate(value(s), dx, dy);
        lemma_distribute(dx, 0real, dy);
    }
}

proof fn lemma_passed_nodes<T: Scalar>(x: Seq<T>, xi: Seq<T>, k: int, value: spec_fn(T) -> real)
    requires
        exact(value),
        x.len() > 0,
        0 <= k <= xi.len(),
    ensures
        reached(x, xi, k) == 0 || exists|j: int|
            0 <= j < k && value(x[reached(x, xi, k)]) <= value(#[trigger] xi[j]),
    decreases k,
{
    if k > 0 {
        lemma_passed_nodes(x, xi, k - 1, value);
        law_lookup_moves_forward(x, xi, k - 1);
        let (a, b) = (reached(x, xi, k - 1), reached(x, xi, k));
        if a < b {
            assert(x[b] <= xi[k - 1]);
            assert(value(x[b]) <= value(xi[k - 1]));
        } else if b > 0 {
            let j = choose|j: int| 0 <= j < k - 1 && value(x[a]) <= value(#[trigger] xi[j]);
            assert(value(x[b]) <= value(xi[j]));
        }
    }
}

/// Law: where nodes and queries come in order, a query between two nodes is looked up
/// between these, one before the first node between the first two, and one behind the
/// last between the last two.
pub proof fn law_lookup_takes_the_nodes_around<T: Scalar>(
    x: Seq<T>,
    xi: Seq<T>,
    k: int,
    m: int,
    value: spec_fn(T) -> real,
)
    requires
        exact(value),
        x.len() >= 2,
        0 <= k < xi.len(),
        0 <= m < x.len(),
        forall|i: int, j: int|
            0 <= i < j < x.len() ==> value(#[trigger] x[i]) < value(#[trigger] x[j]),
        forall|i: int, j: int|
            0 <= i <= j <= k ==> value(#[trigger] xi[i]) <= value(#[trigger] xi[j]),
    ensures
        ({
            let q = value(xi[k]);
            let used = upper_node(x, xi[k], reached(x, xi, k + 1));
            &&& q < value(x[0]) ==> used == 1
            &&& m + 1 < x.len() && value(x[m]) <= q < value(x[m + 1]) ==> used == m + 1
            &&& value(x[x.len() - 1]) <= q ==> used == x.len() - 1
        }),
{
    law_lookup_moves_forward(x, xi, k);
    lemma_passed_nodes(x, xi, k + 1, value);
    let r = reached(x, xi, k + 1);
    let q = value(xi[k]);
    if r > 0 {
        let j = choose|j: int| 0 <= j < k + 1 && value(x[r]) <= value(#[trigger] xi[j]);
        assert(value(xi[j]) <= q);
        assert(value(x[r]) <= q);
    }
    if r + 1 < x.len() {
        assert(!(x[r + 1] <= xi[k]));
        assert(q < value(x[r + 1]));
    }
    if m + 1 < x.len() && value(x[m]) <= q < value(x[m + 1]) {
        assert(!(xi[k] < x[0])) by {
            if m > 0 {
                assert(value(x[0]) < value(x[m]));
            }
        }
        if r < m {
            if r + 1 < m {
                assert(value(x[r + 1]) < value(x[m]));
            }
        }
        if r > m {
            if r > m + 1 {
                assert(value(x[m + 1]) < value(x[r]));
            }
        }
        assert(r == m);
    }
    if value(x[x.len() - 1]) <= q {
        assert(!(xi[k] < x[0])) by {
            assert(value(x[0]) < value(x[x.len() - 1]));
        }
        if r + 1 < x.len() && r + 1 < x.len() - 1 {
            assert(value(x[r + 1]) < value(x[x.len() - 1]));
        }
    }
}

/// Law: what is kept of a signal whose rate is reduced by `r` is every `r`-th sample, the
/// last among them, of the signal sent both ways through the filter for `r`, having been
/// turned about its ends.
pub proof fn law_kept_samples_are_filtered<T: Scalar>(
    x: Seq<T>,
    r: int,
    y: Seq<T>,
    k: int,
    value: spec_fn(T) -> real,
) -> (w: (Seq<T>, Seq<T>))
    requires
        exact(value),
        1 < r,
        0 < x.len(),
        0 <= k < y.len(),
        r * k < x.len(),
    ensures
        ({
            let (once, twice) = w;
            let c = low_pass::<T>(r);
            let m = mirrored(x);
            let n = x.len() as int;
            &&& once.len() == m.len()
            &&& twice.len() == m.len()
            &&& forall|i: int| 0 <= i < m.len() ==> #[trigger] recurs(c, m, once, i, value)
            &&& forall|i: int|
                0 <= i < m.len() ==> #[trigger] recurs(
                    c,
                    once.reverse(),
                    twice.reverse(),
                    i,
                    value,
                )
            &&& (n - 1) % r + r * k < n ==> decimated(x, r, y)[k] == twice[9 + (n - 1) % r + r * k]
        }),
{
    let n = x.len() as int;
    let c = low_pass::<T>(r);
    let once = law_low_pass_goes_both_ways(c, mirrored(x), value);
    if (n - 1) % r + r * k < n {
        vstd::arithmetic::div_mod::lemma_fundamental_div_mod(n - 1, r);
        let last = (n - 1) / r;
        assert(k <= last) by (nonlinear_arith)
            requires
                n - 1 == r * last + (n - 1) % r,
                (n - 1) % r + r * k < n,
                1 < r,
        ;
        assert(k < kept_number(n, r));
    }
    (once, decimate::both_ways(c, mirrored(x)))
}

/// Law: sample `i` at the reduced rate is the sample `(n - 1) % ratio + ratio * i` of what
/// the filter makes of the `n` samples of the signal, whose first and last sample were
/// repeated before and behind it for at least 140 samples. Ratio 1 changes nothing.
pub proof fn law_signal_is_filtered_with_its_ends_held<T: Scalar>(
    x: Seq<T>,
    y_length: int,
    ratio: int,
    y: Seq<T>,
    i: int,
) -> (w: (Seq<T>, int))
    requires
        0 < ratio,
        0 < x.len(),
        0 <= i < y_length <= y.len(),
        ratio * i < x.len(),
        y_length <= x.len(),
    ensures
        ({
            let (held, lag) = w;
            let n = x.len() as int;
            let v = reduced(x, y_length, ratio, y)[i];
            &&& 140 <= lag < 140 + ratio
            &&& held.len() == n + 2 * lag
            &&& forall|j: int|
                0 <= j < held.len() ==> #[trigger] held[j] == x[if j < lag {
                    0
                } else if j < lag + n {
                    j - lag
                } else {
                    n - 1
                }]
            &&& ratio == 1 ==> v == x[i]
            &&& 1 < ratio && (n - 1) % ratio + ratio * i < n ==> v == decimate::both_ways(
                low_pass::<T>(ratio),
                mirrored(held),
            )[9 + lag + (n - 1) % ratio + ratio * i]
        }),
{
    let n = x.len() as int;
    let lag = lead(ratio);
    let held = lengthened(x, lag);
    lemma_lead(ratio);
    law_reduced_positions(n, ratio, i);
    if 1 < ratio && (n - 1) % ratio + ratio * i < n {
        let k = lag / ratio + i;
        let m = n + 2 * lag;
        let position = kept_position(m, ratio, k);
        assert(position == lag + (n - 1) % ratio + ratio * i);
        vstd::arithmetic::div_mod::lemma_fundamental_div_mod(m - 1, ratio);
        let last = (m - 1) / ratio;
        assert(k <= last) by (nonlinear_arith)
            requires
                m - 1 == ratio * last + (m - 1) % ratio,
                (m - 1) % ratio + ratio * k < m,
                1 < ratio,
        ;
        vstd::arithmetic::div_mod::lemma_div_nonincreasing(m - 1, ratio);
        assert(k < held.len());
    }
    (held, lag)
}

/// Law: where nodes and queries come in order, what is looked up lies on the straight line
/// through the two nodes around the query; before the first node and behind the last, on
/// that through the two nearest.
pub proof fn law_contours_are_looked_up_on_the_line<T: Scalar>(
    x: Seq<T>,
    y: Seq<T>,
    xi: Seq<T>,
    yi: Seq<T>,
    k: int,
    m: int,
    value: spec_fn(T) -> real,
)
    requires
        exact(value),
        0real < value(safe_guard::<T>()),
        2 <= x.len(),
        x.len() == y.len(),
        0 <= k < xi.len(),
        k < yi.len(),
        0 <= m < x.len() - 1,
        forall|i: int, j: int|
            0 <= i < j < x.len() ==> value(#[trigger] x[i]) < value(#[trigger] x[j]),
        forall|i: int, j: int|
            0 <= i <= j <= k ==> value(#[trigger] xi[i]) <= value(#[trigger] xi[j]),
        m == 0 || value(x[m]) <= value(xi[k]),
        m == x.len() - 2 || value(xi[k]) < value(x[m + 1]),
        value(safe_guard::<T>()) <= value(x[m + 1]) - value(x[m]),
    ensures
        ({
            let v = value(looked_up(x, y, xi, yi)[k]);
            let (dx, dy) = (value(x[m + 1]) - value(x[m]), value(y[m + 1]) - value(y[m]));
            (v - value(y[m])) * dx == (value(xi[k]) - value(x[m])) * dy
        }),
{
    law_lookup_takes_the_nodes_around(x, xi, k, m, value);
    let q = value(xi[k]);
    let used = upper_node(x, xi[k], reached(x, xi, k + 1));
    assert(value(x[0]) < value(x[x.len() - 1]));
    if q < value(x[0]) {
        if 0 < m {
            assert(value(x[0]) < value(x[m]));
        }
    } else if value(x[x.len() - 1]) <= q {
        if m < x.len() - 2 {
            assert(value(x[m + 1]) < value(x[x.len() - 1]));
        }
    }
    assert(used == m + 1);
    law_lookup_lies_on_the_line(x, y, m + 1, xi[k], value);
}

} // verus!
