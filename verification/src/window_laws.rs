//! What windows, filters and harmonics mean, for numbers that are read exactly.
use crate::analysis::Analysis;
use crate::basics::{circle, rounded, safe_guard, zero};
use crate::exact_laws::{
    lemma_associate, lemma_cancel, lemma_distribute, lemma_mul_le, lemma_mul_lt, lemma_rounded,
    lemma_small_tens,
};
use crate::filter_laws::lemma_reads;
use crate::harvest::boundary;
use crate::refine::{
    concluded, cross_terms, gated, half_window, harmonic_bin, harmonic_number, harmonic_sums,
    instantaneous, main_sample, powers, slopes,
};
use crate::scalar::{Scalar, exact, exact_rounding};
use crate::spectrum::{Complex, band_pass, half_length, nuttall};
use vstd::prelude::*;

verus! {

/// Whether `x` is `n` half turns.
pub open spec fn half_turns<T: Scalar>(x: T, n: int, value: spec_fn(T) -> real) -> bool {
    value(x) == (n as real) * value(circle::<T>())
}

/// The cosine of a whole number of half turns is 1 or -1.
pub open spec fn exact_cosine<T: Scalar>(value: spec_fn(T) -> real) -> bool {
    forall|x: T, n: int| #[trigger]
        half_turns(x, n, value) ==> value(x.cosine()) == if n % 2 == 0 {
            1real
        } else {
            -1real
        }
}

proof fn lemma_unit(a: real, c: real)
    ensures
        c == 1real ==> a * c == a,
        c == -1real ==> a * c == -a,
        c == 0real ==> a * c == 0real,
{
    assert(a * 1real == a);
    assert(a * (-1real) == -a);
    assert(a * 0real == 0real);
}

proof fn lemma_millionths<T: Scalar>(d: int, value: spec_fn(T) -> real)
    requires
        exact(value),
    ensures
        1_000_000real * value(T::of_decimal(d, 6)) == d as real,
{
    lemma_small_tens();
    lemma_reads(value, d, 6, 1_000_000);
    let h = value(T::of_decimal(d, 6));
    assert(h * (1_000_000int as real) == d as real);
    assert(1_000_000int as real == 1_000_000real);
}

proof fn lemma_hundredths<T: Scalar>(d: int, value: spec_fn(T) -> real)
    requires
        exact(value),
    ensures
        100real * value(T::of_decimal(d, 2)) == d as real,
{
    lemma_small_tens();
    lemma_reads(value, d, 2, 100);
    let h = value(T::of_decimal(d, 2));
    assert(h * (100int as real) == d as real);
    assert(100int as real == 100real);
}

proof fn lemma_tenths<T: Scalar>(d: int, value: spec_fn(T) -> real)
    requires
        exact(value),
    ensures
        10real * value(T::of_decimal(d, 1)) == d as real,
{
    lemma_small_tens();
    lemma_reads(value, d, 1, 10);
    let h = value(T::of_decimal(d, 1));
    assert(h * (10int as real) == d as real);
    assert(10int as real == 10real);
}

/// What the window comes to where `x` is `n` half turns.
proof fn lemma_nuttall<T: Scalar>(length: int, i: int, x: T, n: int, value: spec_fn(T) -> real)
    requires
        exact(value),
        exact_cosine(value),
        1 < length,
        x == ((T::of_int(2) * circle::<T>()) * T::of_int(i)) / T::of_int(length - 1),
        half_turns(x, n, value),
    ensures
        value(nuttall::<T>(length, i)) == if n % 2 == 0 {
            0real
        } else {
            1real
        },
{
    let p = value(circle::<T>());
    let (a, b, c, d) = (
        T::of_decimal(355768, 6),
        T::of_decimal(487396, 6),
        T::of_decimal(144232, 6),
        T::of_decimal(12604, 6),
    );
    lemma_millionths::<T>(355768, value);
    lemma_millionths::<T>(487396, value);
    lemma_millionths::<T>(144232, value);
    lemma_millionths::<T>(12604, value);
    let two = T::of_int(2) * x;
    let three = T::of_int(3) * x;
    assert(value(two) == 2real * value(x));
    assert(value(three) == 3real * value(x));
    let k = n as real;
    lemma_associate(2real, k, p);
    lemma_associate(3real, k, p);
    assert((2 * n) as real == 2real * k);
    assert((3 * n) as real == 3real * k);
    assert(half_turns(two, 2 * n, value));
    assert(half_turns(three, 3 * n, value));
    let (u, v, w) = (value(x.cosine()), value(two.cosine()), value(three.cosine()));
    assert(v == 1real);
    assert(u == w) by {
        assert((3 * n) % 2 == n % 2);
    }
    lemma_unit(value(b), u);
    lemma_unit(value(c), v);
    lemma_unit(value(d), w);
    assert(value(b * x.cosine()) == value(b) * u);
    assert(value(c * two.cosine()) == value(c) * v);
    assert(value(d * three.cosine()) == value(d) * w);
}

/// Law: a window is zero at its ends and one at its centre.
pub proof fn law_nuttall_window_rises_from_zero_to_one<T: Scalar>(
    length: int,
    value: spec_fn(T) -> real,
)
    requires
        exact(value),
        exact_cosine(value),
        1 < length,
    ensures
        value(nuttall::<T>(length, 0)) == 0real,
        value(nuttall::<T>(length, length - 1)) == 0real,
        length % 2 == 1 ==> value(nuttall::<T>(length, (length - 1) / 2)) == 1real,
{
    let p = value(circle::<T>());
    let turn = T::of_int(2) * circle::<T>();
    assert(value(turn) == 2real * p);
    let l = (length - 1) as real;
    let first = (turn * T::of_int(0)) / T::of_int(length - 1);
    assert(value(first) * l == value(turn) * 0real);
    lemma_unit(value(turn), 0real);
    assert(0real * l == 0real);
    lemma_cancel(value(first), 0real, l);
    assert(0real * p == 0real);
    assert(half_turns(first, 0, value));
    lemma_nuttall(length, 0, first, 0, value);
    let last = (turn * T::of_int(length - 1)) / T::of_int(length - 1);
    assert(value(last) * l == value(turn) * l);
    lemma_cancel(value(last), value(turn), l);
    assert(half_turns(last, 2, value));
    lemma_nuttall(length, length - 1, last, 2, value);
    if length % 2 == 1 {
        let h = (length - 1) / 2;
        let m = h as real;
        let mid = (turn * T::of_int(h)) / T::of_int(length - 1);
        assert(length - 1 == 2 * h);
        assert(l == 2real * m);
        let x = value(mid);
        assert(x * l == value(turn) * m);
        lemma_associate(x, 2real, m);
        assert(x * 2real == 2real * x);
        assert((2real * x) * m == (2real * p) * m);
        lemma_cancel(2real * x, 2real * p, m);
        assert(1real * p == p);
        assert(half_turns(mid, 1, value));
        lemma_nuttall(length, h, mid, 1, value);
    }
}

/// Law: the filter of a channel is its window wherever the centre of the filter lies a
/// whole number of periods away, and zero behind the window.
pub proof fn law_filter_swings_with_its_channel<T: Scalar>(
    boundary: T,
    fft_size: nat,
    fs: T,
    i: int,
    k: int,
    value: spec_fn(T) -> real,
)
    requires
        exact(value),
        exact_cosine(value),
        value(fs) != 0real,
        0 <= i < fft_size,
    ensures
        ({
            let h = half_length(boundary, fs) as int;
            let v = band_pass(boundary, fft_size, fs)[i];
            &&& i < 2 * h + 1 && value(boundary) * ((i - h) as real) == (k as real) * value(fs)
                ==> value(v) == value(nuttall::<T>(2 * h + 1, i))
            &&& 2 * h + 1 <= i ==> v == zero::<T>()
        }),
{
    let h = half_length(boundary, fs) as int;
    let p = value(circle::<T>());
    let (b, f, m, kk) = (value(boundary), value(fs), (i - h) as real, k as real);
    if i < 2 * h + 1 && b * m == kk * f {
        let turn = (T::of_int(2) * circle::<T>()) * boundary;
        let angle = (turn * T::of_int(i - h)) / fs;
        let a = value(angle);
        assert(value(turn) == (2real * p) * b);
        assert(a * f == ((2real * p) * b) * m);
        lemma_associate(2real * p, b, m);
        lemma_associate(2real * p, kk, f);
        lemma_cancel(a, (2real * p) * kk, f);
        lemma_distribute(p, 0real, kk);
        lemma_associate(2real, p, kk);
        lemma_associate(2real, kk, p);
        assert((2 * k) as real == 2real * kk);
        assert(half_turns(angle, 2 * k, value));
        lemma_unit(value(nuttall::<T>(2 * h + 1, i)), value(angle.cosine()));
    }
}

/// Law: each channel of an analysis has a filter of its own, which swings with the
/// frequency of that channel at the reduced rate.
pub proof fn law_channels_have_their_own_filters<T: Scalar>(
    a: Analysis<T>,
    i: int,
    j: int,
    k: int,
    value: spec_fn(T) -> real,
)
    requires
        exact(value),
        exact_cosine(value),
        a.well_formed(),
        0 <= i < a.channels(),
        0 <= j < a.plan.fft_size,
        value(a.plan.actual_fs) != 0real,
    ensures
        ({
            let b = boundary(a.request.f0_floor, a.request.channels_in_octave, i);
            let fs = a.plan.actual_fs;
            let h = half_length(b, fs) as int;
            let v = a.channel_filter(i)[j];
            let away = (j - h) as real;
            &&& j < 2 * h + 1 && value(b) * away == (k as real) * value(fs) ==> value(v) == value(
                nuttall::<T>(2 * h + 1, j),
            )
            &&& 2 * h + 1 <= j ==> v == zero::<T>()
        }),
{
    let b = boundary(a.request.f0_floor, a.request.channels_in_octave, i);
    law_filter_swings_with_its_channel(
        b,
        a.plan.fft_size as nat,
        a.plan.actual_fs,
        j,
        k,
        value,
    );
}

/// Law: half a filter takes two periods of its channel, to the nearest sample.
pub proof fn law_filter_spans_four_periods<T: Scalar>(
    boundary: T,
    fs: T,
    value: spec_fn(T) -> real,
)
    requires
        exact(value),
        exact_rounding(value),
        0real < value(boundary),
        0real <= value(fs) <= 1_000_000_000real * value(boundary),
    ensures
        ({
            let h = half_length(boundary, fs) as int as real;
            let (b, f) = (value(boundary), value(fs));
            (h - 1real / 2real) * b <= 2real * f <= (h + 1real / 2real) * b
        }),
{
    let (b, f) = (value(boundary), value(fs));
    let q = value(fs / boundary);
    let x = (fs / boundary) * T::of_int(2);
    assert(q * b == f);
    assert(0real <= q <= 1_000_000_000real) by (nonlinear_arith)
        requires
            q * b == f,
            0real < b,
            0real <= f <= 1_000_000_000real * b,
    ;
    assert(value(x) == q * 2real);
    lemma_rounded(x, value);
    let n = rounded(x) as int as real;
    assert(n >= -1real / 2real);
    assert(rounded(x) >= 0);
    lemma_mul_le(n - 1real / 2real, 2real * q, b);
    lemma_mul_le(2real * q, n + 1real / 2real, b);
    lemma_associate(2real, q, b);
}

/// Law: half the window of a candidate is one and a half of its periods and the next
/// whole sample.
pub proof fn law_window_spans_three_periods<T: Scalar>(f0: T, fs: T, value: spec_fn(T) -> real)
    requires
        exact(value),
        exact_rounding(value),
        0real < value(f0),
        0real <= value(fs) <= 1_000_000_000real * value(f0),
    ensures
        ({
            let h = half_window(fs, f0) as real;
            let (b, f) = (value(f0), value(fs));
            2real * ((h - 1real) * b) <= 3real * f < 2real * (h * b)
        }),
{
    lemma_tenths::<T>(15, value);
    let (b, f) = (value(f0), value(fs));
    let c = T::of_decimal(15, 1);
    assert(value(c) == 3real / 2real);
    let q = value((c * fs) / f0);
    assert(value(c * fs) == (3real / 2real) * f);
    assert(q * b == (3real / 2real) * f);
    assert(0real <= q <= 1_500_000_000real) by (nonlinear_arith)
        requires
            q * b == (3real / 2real) * f,
            0real < b,
            0real <= f <= 1_000_000_000real * b,
    ;
    let x = (c * fs) / f0 + T::of_int(1);
    assert(value(x) == q + 1real);
    let h = x.as_usize() as int as real;
    assert(h <= q + 1real < h + 1real);
    lemma_mul_le(h - 1real, q, b);
    lemma_mul_lt(q, h, b);
}

/// Law: the window of a candidate is one at its own time and zero half its length before
/// and behind it.
pub proof fn law_blackman_window_rises_from_zero_to_one<T: Scalar>(
    position: T,
    index: int,
    fs: T,
    length: T,
    away: real,
    value: spec_fn(T) -> real,
)
    requires
        exact(value),
        exact_cosine(value),
        value(fs) != 0real,
        value(length) != 0real,
        (value(position) + away) * value(fs) == (index - 1) as real,
    ensures
        away == 0real ==> value(main_sample(position, index, fs, length)) == 1real,
        2real * away == value(length) || 2real * away == -value(length) ==> value(
            main_sample(position, index, fs, length),
        ) == 0real,
{
    let p = value(circle::<T>());
    let (f, l) = (value(fs), value(length));
    let q = (T::of_int(index) - T::of_int(1)) / fs;
    assert(value(T::of_int(index) - T::of_int(1)) == (index - 1) as real);
    assert(value(q) * f == (index - 1) as real);
    lemma_cancel(value(q), value(position) + away, f);
    let t = q - position;
    assert(value(t) == away);
    let one = ((T::of_int(2) * circle::<T>()) * t) / length;
    let two = ((T::of_int(4) * circle::<T>()) * t) / length;
    let (x, y) = (value(one), value(two));
    assert(value((T::of_int(2) * circle::<T>()) * t) == (2real * p) * away);
    assert(value((T::of_int(4) * circle::<T>()) * t) == (4real * p) * away);
    assert(x * l == (2real * p) * away);
    assert(y * l == (4real * p) * away);
    lemma_hundredths::<T>(42, value);
    lemma_hundredths::<T>(8, value);
    lemma_tenths::<T>(5, value);
    let (b, c) = (value(T::of_decimal(5, 1)), value(T::of_decimal(8, 2)));
    let (u, v) = (value(one.cosine()), value(two.cosine()));
    lemma_unit(b, u);
    lemma_unit(c, v);
    assert(value(T::of_decimal(5, 1) * one.cosine()) == b * u);
    assert(value(T::of_decimal(8, 2) * two.cosine()) == c * v);
    assert(0real * p == 0real);
    if away == 0real {
        lemma_unit(2real * p, away);
        lemma_unit(4real * p, away);
        assert(0real * l == 0real);
        lemma_cancel(x, 0real, l);
        lemma_cancel(y, 0real, l);
        assert(half_turns(one, 0, value));
        assert(half_turns(two, 0, value));
    } else if 2real * away == l || 2real * away == -l {
        let n: int = if 2real * away == l { 1 } else { -1 };
        let k = n as real;
        assert(k == if n == 1 { 1real } else { -1real });
        lemma_unit(l, k);
        lemma_distribute(k, 0real, l);
        assert(2real * away == k * l);
        lemma_distribute(2real, 0real, p);
        lemma_distribute(4real, 0real, p);
        lemma_associate(p, 2real, away);
        lemma_associate(p, 4real, away);
        lemma_associate(p, k, l);
        lemma_cancel(x, p * k, l);
        assert(4real * away == (2real * k) * l) by {
            lemma_associate(2real, k, l);
        }
        lemma_associate(p, 2real * k, l);
        lemma_cancel(y, p * (2real * k), l);
        lemma_distribute(p, 0real, k);
        lemma_distribute(p, 0real, 2real * k);
        assert((2 * n) as real == 2real * k);
        assert(half_turns(one, n, value));
        assert(half_turns(two, 2 * n, value));
    }
}

/// The value of `w` at `i`, zero beyond its ends.
pub open spec fn within<T>(w: Seq<T>, i: int, value: spec_fn(T) -> real) -> real {
    if 0 <= i < w.len() {
        value(w[i])
    } else {
        0real
    }
}

/// Law: the slope of a window at a sample is half of what it falls from the sample
/// before to the sample behind, the window being zero beyond its ends.
pub proof fn law_slopes_are_central_differences<T: Scalar>(
    w: Seq<T>,
    i: int,
    value: spec_fn(T) -> real,
)
    requires
        exact(value),
        2 <= w.len(),
        0 <= i < w.len(),
    ensures
        2real * value(slopes(w)[i]) == within(w, i - 1, value) - within(w, i + 1, value),
{
    let n = w.len() as int;
    let two = T::of_int(2);
    assert(value(two) == 2real);
    if i == 0 {
        let d = -w[1];
        assert(value(d / two) * 2real == value(d));
    } else if i < n - 1 {
        let d = -(w[i + 1] - w[i - 1]);
        assert(value(d / two) * 2real == value(d));
    } else {
        assert(value(w[n - 2] / two) * 2real == value(w[n - 2]));
    }
}

/// Law: where the second spectrum is the first one turned by a quarter and times `theta`,
/// the cross term is `theta` times the power.
pub proof fn law_cross_term_measures_the_turn<T: Scalar>(
    main: Seq<Complex<T>>,
    diff: Seq<Complex<T>>,
    bins: nat,
    j: int,
    theta: real,
    value: spec_fn(T) -> real,
)
    requires
        exact(value),
        0 <= j < bins,
        value(diff[j].re) == -(theta * value(main[j].im)),
        value(diff[j].im) == theta * value(main[j].re),
    ensures
        value(cross_terms(main, diff, bins)[j]) == theta * value(powers(main, bins)[j]),
        0real <= value(powers(main, bins)[j]),
{
    let (a, b) = (value(main[j].re), value(main[j].im));
    assert(a * (theta * a) == theta * (a * a)) by (nonlinear_arith);
    assert(b * (-(theta * b)) == -(theta * (b * b))) by (nonlinear_arith);
    lemma_distribute(a * a, b * b, theta);
    lemma_distribute(a * a + b * b, 0real, theta);
    lemma_distribute(a * a, 0real, theta);
    lemma_distribute(b * b, 0real, theta);
    assert(0real <= a * a) by (nonlinear_arith);
    assert(0real <= b * b) by (nonlinear_arith);
}

/// Law: the frequency at a bin is that of the bin and as many turns per second more as
/// the cross term over the power says; without power it is zero.
pub proof fn law_frequency_departs_by_the_cross_term<T: Scalar>(
    power: Seq<T>,
    cross: Seq<T>,
    fft_size: int,
    fs: T,
    j: int,
    centre: real,
    value: spec_fn(T) -> real,
)
    requires
        exact(value),
        0 < fft_size,
        value(circle::<T>()) != 0real,
        centre * (fft_size as real) == (j as real) * value(fs),
    ensures
        ({
            let f = instantaneous(power, cross, fft_size, fs, j);
            let p = value(circle::<T>());
            if value(power[j]) == 0real {
                f == zero::<T>()
            } else {
                (2real * ((value(f) - centre) * p)) * value(power[j]) == value(cross[j]) * value(fs)
            }
        }),
{
    assert(value(zero::<T>()) == 0real);
    if value(power[j]) != 0real {
        let p = value(circle::<T>());
        let (f, w) = (value(fs), value(power[j]));
        let a = (T::of_int(j) * fs) / T::of_int(fft_size);
        assert(value(a) * (fft_size as real) == (j as real) * f);
        lemma_cancel(value(a), centre, fft_size as real);
        let d = cross[j] / power[j];
        let e = (d * fs) / T::of_int(2);
        let g = e / circle::<T>();
        assert(value(d) * w == value(cross[j]));
        assert(value(e) * 2real == value(d) * f);
        assert(value(g) * p == value(e));
        let x = value(d);
        assert((x * f) * w == (x * w) * f) by (nonlinear_arith);
    }
}

/// Law: the bin of a harmonic is the one nearest to it, the last bin at most.
pub proof fn law_harmonics_have_the_nearest_bins<T: Scalar>(
    f0: T,
    fft_size: int,
    fs: T,
    i: int,
    bins: int,
    x: real,
    value: spec_fn(T) -> real,
)
    requires
        exact(value),
        exact_rounding(value),
        value(fs) != 0real,
        0 <= i,
        0 < bins,
        0real <= x <= 2_000_000_000real,
        x * value(fs) == (value(f0) * (fft_size as real)) * ((i as real) + 1real),
    ensures
        ({
            let n = harmonic_bin(f0, fft_size, fs, i, bins);
            &&& 0 <= n < bins
            &&& (n as real) - x <= 1real / 2real
            &&& n < bins - 1 ==> x - (n as real) <= 1real / 2real
        }),
{
    let y = (f0 * T::of_int(fft_size)) / fs;
    let f = value(fs);
    let k = (i as real) + 1real;
    let z = y * (T::of_int(i) + T::of_int(1));
    assert(value(y) * f == value(f0) * (fft_size as real));
    assert(value(z) == value(y) * k);
    let (a, b) = (value(y), value(f0) * (fft_size as real));
    assert((a * k) * f == (a * f) * k) by (nonlinear_arith);
    lemma_cancel(value(z), x, f);
    lemma_rounded(z, value);
    assert(rounded(z) as int as real >= -1real / 2real);
    assert(rounded(z) >= 0);
}

/// Law: as many harmonics are looked at as lie below half the rate, at least one and at
/// most six.
pub proof fn law_harmonics_lie_below_half_the_rate<T: Scalar>(
    fs: T,
    f0: T,
    value: spec_fn(T) -> real,
)
    requires
        exact(value),
        exact_rounding(value),
        0real < value(f0),
        0real <= value(fs) <= 1_000_000_000real * value(f0),
    ensures
        ({
            let n = harmonic_number(fs, f0);
            let k = n as real;
            &&& 1 <= n <= 6
            &&& 1 < n ==> 2real * (k * value(f0)) <= value(fs)
            &&& n < 6 ==> value(fs) < 2real * ((k + 1real) * value(f0))
        }),
{
    let (f, b) = (value(fs), value(f0));
    let half = fs / T::of_int(2);
    let x = half / f0;
    let q = value(x);
    assert(value(half) * 2real == f);
    assert(q * b == value(half));
    assert(2real * (q * b) == f);
    assert(0real <= q <= 1_000_000_000real) by (nonlinear_arith)
        requires
            2real * (q * b) == f,
            0real < b,
            0real <= f <= 1_000_000_000real * b,
    ;
    let m = x.as_i32() as int;
    let n = harmonic_number(fs, f0);
    let (c, k) = (m as real, n as real);
    assert(c <= q < c + 1real);
    if 1 < n {
        assert(k <= c);
        lemma_mul_le(k, q, b);
    }
    if n < 6 {
        assert(c <= k);
        lemma_mul_lt(q, k + 1real, b);
    }
}

/// Whether harmonics 1 to `n` of the candidate `f0` are found at the multiples of `m`.
pub open spec fn harmonics_of<T: Scalar>(
    power: Seq<T>,
    cross: Seq<T>,
    fft_size: int,
    fs: T,
    f0: T,
    n: int,
    m: real,
    value: spec_fn(T) -> real,
) -> bool {
    forall|i: int|
        1 <= i <= n ==> value(
            instantaneous(
                power,
                cross,
                fft_size,
                fs,
                #[trigger] harmonic_bin(f0, fft_size, fs, i - 1, power.len() as int),
            ),
        ) == (i as real) * m
}

proof fn lemma_harmonic_sums<T: Scalar>(
    power: Seq<T>,
    cross: Seq<T>,
    fft_size: int,
    fs: T,
    f0: T,
    n: int,
    m: real,
    off: real,
    value: spec_fn(T) -> real,
)
    requires
        exact(value),
        0 <= n,
        0real < value(f0),
        harmonics_of(power, cross, fft_size, fs, f0, n, m, value),
        0real <= off,
        off * value(f0) == m - value(f0) || off * value(f0) == value(f0) - m,
    ensures
        ({
            let s = harmonic_sums(power, cross, fft_size, fs, f0, n);
            value(s.0) == value(s.1) * m && value(s.2) == (n as real) * off
        }),
    decreases n,
{
    if n > 0 {
        assert forall|i: int| 1 <= i <= n - 1 implies value(
            instantaneous(
                power,
                cross,
                fft_size,
                fs,
                #[trigger] harmonic_bin(f0, fft_size, fs, i - 1, power.len() as int),
            ),
        ) == (i as real) * m by {}
        lemma_harmonic_sums(power, cross, fft_size, fs, f0, n - 1, m, off, value);
        let s = harmonic_sums(power, cross, fft_size, fs, f0, n - 1);
        let i = n;
        let j = harmonic_bin(f0, fft_size, fs, i - 1, power.len() as int);
        let a = power[j].square_root();
        let g = instantaneous(power, cross, fft_size, fs, j);
        let number = T::of_int(n - 1) + T::of_int(1);
        let k = n as real;
        let b = value(f0);
        assert(value(number) == k);
        assert(value(g) == k * m);
        lemma_associate(value(a), k, m);
        lemma_distribute(value(s.1), value(a) * k, m);
        let q = g / number;
        assert(value(q) * k == k * m);
        lemma_distribute(k, 0real, m);
        lemma_cancel(value(q), m, k);
        let d = (q - f0) / f0;
        assert(value(d) * b == m - b);
        let e = value(d);
        if off * b == m - b {
            lemma_cancel(e, off, b);
        } else {
            assert((-off) * b == -(off * b)) by (nonlinear_arith);
            lemma_cancel(e, -off, b);
        }
        assert(value(d.magnitude()) == off);
        lemma_distribute((n - 1) as real, 1real, off);
        assert(((n - 1) as real) + 1real == k);
        assert(1real * off == off);
    } else {
        assert(value(zero::<T>()) == 0real);
        assert(0real * m == 0real);
        assert(0real * off == 0real);
    }
}

/// Law: where every harmonic that is looked at is found at its multiple of `m`, the
/// candidate is refined to `m`, but for the small number, and its score is one over the
/// part of it by which it was off.
pub proof fn law_harmonics_that_agree_decide<T: Scalar>(
    power: Seq<T>,
    cross: Seq<T>,
    fft_size: int,
    fs: T,
    f0: T,
    n: int,
    m: real,
    off: real,
    value: spec_fn(T) -> real,
) -> (weight: real)
    requires
        exact(value),
        0 < n,
        0real < value(f0),
        0real < value(safe_guard::<T>()),
        harmonics_of(power, cross, fft_size, fs, f0, n, m, value),
        0real <= off,
        off * value(f0) == m - value(f0) || off * value(f0) == value(f0) - m,
        forall|x: T| 0real <= value(#[trigger] x.square_root()),
    ensures
        ({
            let r = concluded(power, cross, fft_size, fs, f0, n);
            let g = value(safe_guard::<T>());
            &&& 0real <= weight
            &&& value(r.0) * (weight + g) == weight * m
            &&& value(r.1) * (off + g) == 1real
        }),
{
    lemma_harmonic_sums(power, cross, fft_size, fs, f0, n, m, off, value);
    lemma_weights(power, cross, fft_size, fs, f0, n, value);
    let s = harmonic_sums(power, cross, fft_size, fs, f0, n);
    let k = n as real;
    let q = s.2 / T::of_int(n);
    assert(value(q) * k == k * off);
    lemma_distribute(k, 0real, off);
    lemma_cancel(value(q), off, k);
    value(s.1)
}

proof fn lemma_weights<T: Scalar>(
    power: Seq<T>,
    cross: Seq<T>,
    fft_size: int,
    fs: T,
    f0: T,
    n: int,
    value: spec_fn(T) -> real,
)
    requires
        exact(value),
        forall|x: T| 0real <= value(#[trigger] x.square_root()),
    ensures
        0real <= value(harmonic_sums(power, cross, fft_size, fs, f0, n).1),
    decreases n,
{
    if n > 0 {
        lemma_weights(power, cross, fft_size, fs, f0, n - 1, value);
        let j = harmonic_bin(f0, fft_size, fs, n - 1, power.len() as int);
        let a = value(power[j].square_root());
        let number = T::of_int(n - 1) + T::of_int(1);
        assert(value(number) == n as real);
        lemma_mul_le(0real, a, n as real);
        assert(0real * (n as real) == 0real);
    } else {
        assert(value(zero::<T>()) == 0real);
    }
}

/// Law: a refined candidate is kept exactly where it lies from the floor up to the
/// ceiling and its score is at least two and a half.
pub proof fn law_refined_candidates_are_kept_within_bounds<T: Scalar>(
    r: (T, T),
    floor: T,
    ceil: T,
    value: spec_fn(T) -> real,
)
    requires
        exact(value),
    ensures
        gated(r, floor, ceil) == if value(floor) <= value(r.0) <= value(ceil) && 5real <= 2real
            * value(r.1) {
            r
        } else {
            (zero::<T>(), zero::<T>())
        },
{
    lemma_tenths::<T>(25, value);
}

} // verus!
