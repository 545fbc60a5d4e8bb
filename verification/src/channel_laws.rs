//! What channels, their candidates and the smoothing mean, for numbers that are read
//! exactly.
use crate::analysis::Analysis;
use crate::basics::{repeated, zero};
use crate::candidates::{
    agreeing, channel_total, detected, detected_number, falls, in_run,
    law_candidates_come_from_runs, law_overlap_exchanges_neighbours, most_detected, rises,
    run_mean, shorter, wide_run, wide_runs,
};
use crate::exact_laws::{
    entry, law_transform_is_scaled, lemma_cancel, lemma_distribute, lemma_mul_le, lemma_mul_lt,
    lemma_nothing, lemma_rounded, lemma_sum_scales, lemma_swap,
};
use crate::filter_laws::{lemma_reads, lemma_tens};
use crate::estimator::request_for;
use crate::harvest::{
    HarvestOption, base_candidates, boundary, extra_channels, margin, reduced_length, reduced_rate,
};
use crate::scalar::{Scalar, exact, exact_rounding};
use crate::sections::{
    boundaries, channel, in_section, law_boundaries_list_sections, lemma_run_within_section,
    voiced,
};
use crate::smoothing::{
    self, both_ways, feedback, feedforward, held, padded, section_at, smoothed,
};
use crate::spectrum::{filtered, half_length};
use vstd::arithmetic::power::pow;
use vstd::prelude::*;

verus! {

/// Powers of two are read exactly.
pub open spec fn exact_powers<T: Scalar>(value: spec_fn(T) -> real) -> bool {
    &&& forall|x: T| value(x) == 0real ==> value(#[trigger] x.power_of_two()) == 1real
    &&& forall|x: T, y: T|
        #![trigger x.power_of_two(), y.power_of_two()]
        value(y) == value(x) + 1real ==> value(y.power_of_two()) == 2real * value(x.power_of_two())
}

/// Law: with `c` channels for each octave, the frequency doubles every `c` channels, and
/// the channel before the first would lie at nine tenths of the floor.
pub proof fn law_channels_double_with_each_octave<T: Scalar>(
    floor: T,
    c: int,
    i: int,
    value: spec_fn(T) -> real,
)
    requires
        exact(value),
        exact_powers(value),
        0 < c,
    ensures
        value(boundary(floor, T::of_int(c), i + c)) == 2real * value(
            boundary(floor, T::of_int(c), i),
        ),
        10real * value(boundary(floor, T::of_int(c), -1)) == 9real * value(floor),
{
    lemma_nine_tenths::<T>(value);
    let k = c as real;
    let low = floor * T::of_decimal(9, 1);
    let x = (T::of_int(i) + T::of_int(1)) / T::of_int(c);
    let y = (T::of_int(i + c) + T::of_int(1)) / T::of_int(c);
    let z = (T::of_int(-1) + T::of_int(1)) / T::of_int(c);
    assert(value(x) * k == (i as real) + 1real);
    assert(value(y) * k == ((i + c) as real) + 1real);
    assert((i + c) as real == (i as real) + k);
    lemma_distribute(value(x), 1real, k);
    assert(1real * k == k);
    lemma_cancel(value(y), value(x) + 1real, k);
    lemma_swap(value(low), 2real, value(x.power_of_two()));
    assert(value(z) * k == 0real);
    assert(0real * k == 0real);
    lemma_cancel(value(z), 0real, k);
    assert(value(low) * 1real == value(low));
    let (f, n) = (value(floor), value(T::of_decimal(9, 1)));
    assert(n == 9real / 10real);
    assert(f * n == 9real * f / 10real) by (nonlinear_arith)
        requires
            n == 9real / 10real,
    ;
}

proof fn lemma_nine_tenths<T: Scalar>(value: spec_fn(T) -> real)
    requires
        exact(value),
    ensures
        value(T::of_decimal(9, 1)) == 9real / 10real,
        value(T::of_decimal(11, 1)) == 11real / 10real,
{
    reveal_with_fuel(pow, 2);
    assert(pow(10, 1) == 10);
    lemma_reads(value, 9, 1, 10);
    lemma_reads(value, 11, 1, 10);
    let (a, b) = (value(T::of_decimal(9, 1)), value(T::of_decimal(11, 1)));
    assert(a * (10int as real) == 9int as real);
    assert(b * (10int as real) == 11int as real);
}

/// The natural logarithm of two, to seventeen places.
pub open spec fn ln_two() -> real {
    69314718055994529real / 100000000000000000real
}

/// Whether `x` is one doubled `n` times.
pub open spec fn doubled<T: Scalar>(x: T, n: nat, value: spec_fn(T) -> real) -> bool {
    value(x) == pow(2, n) as real
}

/// Logarithms of powers of two are read to within a thousandth of an octave.
pub open spec fn near_logarithms<T: Scalar>(value: spec_fn(T) -> real) -> bool {
    forall|x: T, n: nat|
        n <= 20 && #[trigger] doubled(x, n, value) ==> {
            let octaves = n as real;
            octaves * ln_two() <= value(x.logarithm()) <= (octaves + 1real / 1000real) * ln_two()
        }
}

/// Law: with `c` channels for each octave, there are `c` more channels for each octave
/// from nine tenths of the floor to eleven tenths of the ceiling.
pub proof fn law_channels_span_the_range<T: Scalar>(
    floor: T,
    ceil: T,
    c: int,
    octaves: nat,
    value: spec_fn(T) -> real,
)
    requires
        exact(value),
        exact_rounding(value),
        near_logarithms(value),
        0 < c < 1000,
        octaves <= 20,
        0real < value(floor),
        11real * value(ceil) == (pow(2, octaves) as real) * (9real * value(floor)),
    ensures
        extra_channels(floor, ceil, T::of_int(c)) == octaves * c,
{
    lemma_nine_tenths::<T>(value);
    lemma_ln_two::<T>(value);
    let (f, h) = (value(floor), value(ceil));
    let low = floor * T::of_decimal(9, 1);
    let high = ceil * T::of_decimal(11, 1);
    let p = pow(2, octaves) as real;
    assert(value(low) == 9real * f / 10real) by (nonlinear_arith)
        requires
            value(low) == f * (9real / 10real),
    ;
    assert(value(high) == 11real * h / 10real) by (nonlinear_arith)
        requires
            value(high) == h * (11real / 10real),
    ;
    let q = high / low;
    let x = value(q);
    let l = value(low);
    assert(x * l == value(high));
    assert(value(high) == p * l) by (nonlinear_arith)
        requires
            value(high) == 11real * h / 10real,
            11real * h == p * (9real * f),
            l == 9real * f / 10real,
    ;
    lemma_cancel(x, p, l);
    assert(doubled(q, octaves, value));
    let g = ln_two();
    let t = T::of_decimal(69314718055994529, 17);
    let r = q.logarithm() / t;
    let n = octaves as real;
    assert(value(r) * g == value(q.logarithm()));
    let y = value(r);
    if y < n {
        lemma_mul_lt(y, n, g);
    }
    if n + 1real / 1000real < y {
        lemma_mul_lt(n + 1real / 1000real, y, g);
    }
    let k = c as real;
    let w = r * T::of_int(c);
    assert(value(w) == y * k);
    lemma_mul_le(n, y, k);
    lemma_mul_le(y, n + 1real / 1000real, k);
    lemma_distribute(n, 1real / 1000real, k);
    assert((1real / 1000real) * k == k / 1000real);
    assert((octaves * c) as real == n * k) by {
        lemma_product(octaves as int, c);
    }
    assert(0real <= n * k <= 20_000real) by (nonlinear_arith)
        requires
            0real <= n <= 20real,
            0real <= k <= 1000real,
    ;
    let m = w.as_usize() as int;
    assert((m as real) <= value(w) < (m as real) + 1real);
    assert(m == octaves * c);
}

proof fn lemma_product(a: int, b: int)
    requires
        0 <= a,
    ensures
        (a * b) as real == (a as real) * (b as real),
    decreases a,
{
    if a > 0 {
        lemma_product(a - 1, b);
        assert(a * b == (a - 1) * b + b) by (nonlinear_arith);
        lemma_distribute((a - 1) as real, 1real, b as real);
        assert(((a - 1) as real) + 1real == a as real);
        assert(1real * (b as real) == b as real);
    } else {
        assert(a * b == 0) by (nonlinear_arith)
            requires
                a == 0,
        ;
        assert(0real * (b as real) == 0real);
    }
}

proof fn lemma_ln_two<T: Scalar>(value: spec_fn(T) -> real)
    requires
        exact(value),
    ensures
        value(T::of_decimal(69314718055994529, 17)) == ln_two(),
{
    lemma_tens();
    lemma_reads(value, 69314718055994529, 17, 100000000000000000);
    let h = value(T::of_decimal(69314718055994529, 17));
    assert(h * (100000000000000000int as real) == 69314718055994529int as real);
    assert(h * 100000000000000000real == 69314718055994529real);
}

/// Law: the margin of the transform is two periods of the lowest channel, in whole
/// samples at the reduced rate.
pub proof fn law_margin_takes_two_periods<T: Scalar>(
    fs: int,
    ratio: int,
    lowest: T,
    value: spec_fn(T) -> real,
)
    requires
        exact(value),
        exact_rounding(value),
        0 < ratio,
        0 <= fs,
        0real < value(lowest),
        (fs as real) <= 1_000_000_000real * value(lowest),
    ensures
        ({
            let m = margin(fs, ratio, lowest) as real;
            let rate = value(reduced_rate::<T>(fs, ratio));
            &&& rate * (ratio as real) == fs as real
            &&& m * value(lowest) <= 2real * rate < (m + 1real) * value(lowest)
        }),
{
    let rate = reduced_rate::<T>(fs, ratio);
    let (r, n, b) = (value(rate), ratio as real, value(lowest));
    assert(r * n == fs as real);
    assert(0real <= r <= (fs as real)) by (nonlinear_arith)
        requires
            r * n == fs as real,
            1real <= n,
            0real <= (fs as real),
    ;
    let x = (T::of_int(2) * rate) / lowest;
    let q = value(x);
    assert(q * b == 2real * r);
    assert(0real <= q <= 2_000_000_000real) by (nonlinear_arith)
        requires
            q * b == 2real * r,
            0real <= r <= 1_000_000_000real * b,
            0real < b,
    ;
    let m = x.as_usize() as int as real;
    assert(m <= q < m + 1real);
    lemma_mul_le(m, q, b);
    lemma_mul_lt(q, m + 1real, b);
}

/// Law: the filtered signal is what the inverse transform gave over its length, from one
/// sample behind half the filter on; behind the signal it is zero.
pub proof fn law_filtered_signal_is_moved_by_half_the_filter<T: Scalar>(
    time: Seq<T>,
    boundary: T,
    fft_size: nat,
    fs: T,
    y_length: int,
    i: int,
    value: spec_fn(T) -> real,
)
    requires
        exact(value),
        0 <= i < fft_size,
        i < y_length ==> i + half_length(boundary, fs) + 1 < fft_size,
    ensures
        ({
            let v = filtered(time, boundary, fft_size, fs, y_length)[i];
            &&& i < y_length ==> value(v) * (fft_size as real) == value(
                time[i + half_length(boundary, fs) + 1],
            )
            &&& y_length <= i ==> v == zero::<T>()
        }),
{
    let out = repeated(fft_size, zero::<T>());
    if i < y_length {
        let j = i + half_length(boundary, fs) + 1;
        law_transform_is_scaled(time, fft_size as int, out, j, value);
    }
}

/// Law: at the rate reduced by `ratio` there are as many samples as it takes to cover the
/// signal, and no more.
pub proof fn law_reduced_samples_cover_the_signal(x_length: int, ratio: int)
    requires
        0 <= x_length,
        0 < ratio,
    ensures
        ({
            let n = reduced_length(x_length, ratio);
            x_length <= ratio * n < x_length + ratio
        }),
{
    vstd::arithmetic::div_mod::lemma_fundamental_div_mod(x_length + ratio - 1, ratio);
    vstd::arithmetic::div_mod::lemma_mod_bound(x_length + ratio - 1, ratio);
}

/// Law: there is room for a tenth of the channels, to the nearest whole number, and for
/// one at least.
pub proof fn law_room_for_a_tenth_of_the_channels(channels: int)
    requires
        0 <= channels,
    ensures
        1 <= base_candidates(channels),
        channels < 15 ==> base_candidates(channels) == 1,
        15 <= channels ==> -5 <= 10 * base_candidates(channels) - channels <= 5,
{
}

proof fn lemma_wide_runs_have(st: Seq<usize>, ed: Seq<usize>, n: int, k: int) -> (c: int)
    requires
        0 <= k < n,
        wide_run(st, ed, k),
    ensures
        0 <= c < wide_runs(st, ed, n).len(),
        wide_runs(st, ed, n)[c] == k,
    decreases n,
{
    if k == n - 1 {
        wide_runs(st, ed, n - 1).len() as int
    } else {
        lemma_wide_runs_have(st, ed, n - 1, k)
    }
}

proof fn lemma_wide_runs_are(st: Seq<usize>, ed: Seq<usize>, n: int, c: int)
    requires
        0 <= c < wide_runs(st, ed, n).len(),
    ensures
        0 <= wide_runs(st, ed, n)[c] < n,
        wide_run(st, ed, wide_runs(st, ed, n)[c]),
    decreases n,
{
    if n > 0 && c < wide_runs(st, ed, n - 1).len() {
        lemma_wide_runs_are(st, ed, n - 1, c);
    }
}

/// Whether the channels from `lo` up to but not including `hi` are positive at `frame`,
/// and those on either side of them are not or are the outermost.
pub open spec fn agree_alone<T: Scalar>(
    raw: Seq<Seq<T>>,
    channels: nat,
    frame: int,
    lo: int,
    hi: int,
    value: spec_fn(T) -> real,
) -> bool {
    &&& 0 < lo < hi < channels
    &&& forall|j: int| lo <= j < hi ==> 0real < value(#[trigger] raw[j][frame])
    &&& lo == 1 || value(raw[lo - 1][frame]) <= 0real
    &&& hi == channels - 1 || value(raw[hi][frame]) <= 0real
}

/// The values of the channels from `lo` up to but not including `hi`, added up.
pub open spec fn summed_channels<T>(
    raw: Seq<Seq<T>>,
    frame: int,
    lo: int,
    hi: int,
    value: spec_fn(T) -> real,
) -> real
    decreases hi - lo,
{
    if hi <= lo {
        0real
    } else {
        summed_channels(raw, frame, lo, hi - 1, value) + value(raw[hi - 1][frame])
    }
}

proof fn lemma_summed_channels<T: Scalar>(
    raw: Seq<Seq<T>>,
    frame: int,
    lo: int,
    hi: int,
    value: spec_fn(T) -> real,
)
    requires
        exact(value),
    ensures
        value(channel_total(raw, frame, lo, hi)) == summed_channels(raw, frame, lo, hi, value),
    decreases hi - lo,
{
    if lo < hi {
        lemma_summed_channels(raw, frame, lo, hi - 1, value);
    } else {
        assert(value(zero::<T>()) == 0real);
    }
}

/// Law: wherever at least ten neighbouring channels agree, a frame has their mean as a
/// candidate.
pub proof fn law_ten_channels_make_a_candidate<T: Scalar>(
    raw: Seq<Seq<T>>,
    channels: nat,
    frame: int,
    lo: int,
    hi: int,
    value: spec_fn(T) -> real,
) -> (c: int)
    requires
        exact(value),
        0 < channels <= usize::MAX,
        agree_alone(raw, channels, frame, lo, hi, value),
        hi - lo >= 10,
    ensures
        0 <= c,
        value(detected(raw, channels, frame, c)) * ((hi - lo) as real) == summed_channels(
            raw,
            frame,
            lo,
            hi,
            value,
        ),
{
    let v = agreeing(raw, channels, frame);
    let (st, ed) = (rises(v), falls(v));
    law_candidates_come_from_runs(raw, channels, frame);
    assert(value(zero::<T>()) == 0real);
    assert forall|j: int| lo <= j < hi implies #[trigger] v[j] by {
        assert(0real < value(raw[j][frame]));
    }
    assert(!v[lo - 1] && !v[hi]);
    assert(v[lo]);
    let k = choose|k: int| in_run(st, ed, k, lo);
    assert(in_run(st, ed, k, lo));
    if st[k] < lo {
        assert(in_run(st, ed, k, lo - 1));
    }
    if hi < ed[k] {
        assert(in_run(st, ed, k, hi));
    }
    if ed[k] < hi {
        let e = ed[k] as int;
        assert(v[e]);
        let m = choose|m: int| in_run(st, ed, m, e);
        assert(in_run(st, ed, m, e));
        if k < m {
            assert(ed[k] < st[m]);
        } else if m < k {
            assert(ed[m] < st[k]);
        }
    }
    assert(wide_run(st, ed, k));
    assert(shorter(st, ed) == ed.len());
    let c = lemma_wide_runs_have(st, ed, shorter(st, ed), k);
    assert(detected(raw, channels, frame, c) == run_mean(raw, frame, lo, hi));
    lemma_summed_channels(raw, frame, lo, hi, value);
    let w = T::of_int(hi - lo);
    assert(value(w) == (hi - lo) as real);
    c
}

/// Law: every candidate of a frame that is not zero is the mean of at least ten
/// neighbouring channels that agree.
pub proof fn law_candidates_are_means_of_ten_channels<T: Scalar>(
    raw: Seq<Seq<T>>,
    channels: nat,
    frame: int,
    c: int,
    value: spec_fn(T) -> real,
) -> (w: (int, int))
    requires
        exact(value),
        0 < channels <= usize::MAX,
        0 <= c,
        detected(raw, channels, frame, c) != zero::<T>(),
    ensures
        ({
            let (lo, hi) = w;
            &&& 0 < lo
            &&& lo + 10 <= hi < channels
            &&& forall|j: int| lo <= j < hi ==> 0real < value(#[trigger] raw[j][frame])
            &&& value(detected(raw, channels, frame, c)) * ((hi - lo) as real) == summed_channels(
                raw,
                frame,
                lo,
                hi,
                value,
            )
        }),
{
    let v = agreeing(raw, channels, frame);
    let (st, ed) = (rises(v), falls(v));
    law_candidates_come_from_runs(raw, channels, frame);
    let wide = wide_runs(st, ed, shorter(st, ed));
    assert(c < wide.len());
    lemma_wide_runs_are(st, ed, shorter(st, ed), c);
    let k = wide[c];
    let (lo, hi) = (st[k] as int, ed[k] as int);
    assert(value(zero::<T>()) == 0real);
    assert forall|j: int| lo <= j < hi implies 0real < value(#[trigger] raw[j][frame]) by {
        assert(in_run(st, ed, k, j));
        assert(v[j]);
    }
    lemma_summed_channels(raw, frame, lo, hi, value);
    assert(value(T::of_int(hi - lo)) == (hi - lo) as real);
    (lo, hi)
}

/// Law: the candidates of a frame are its own and those of the three frames on either
/// side of it.
pub proof fn law_frames_have_the_candidates_of_their_neighbours<T: Scalar>(
    a: Analysis<T>,
    raw: Seq<Seq<T>>,
    k: int,
    c: int,
    d: int,
)
    requires
        0 <= k < a.plan.f0_length,
        0 <= c < a.own_number(raw),
        1 <= d <= 3,
        7 * a.own_number(raw) <= a.plan.max_candidates,
    ensures
        ({
            let n = a.own_number(raw) as int;
            let g = a.candidate_grid(raw);
            &&& g[k][c] == detected(raw, a.channels(), k, c)
            &&& d <= k ==> g[k][c + n * d] == detected(raw, a.channels(), k - d, c)
            &&& k + d < a.plan.f0_length ==> g[k][c + n * (d + 3)] == detected(
                raw,
                a.channels(),
                k + d,
                c,
            )
        }),
{
    let n = a.own_number(raw) as int;
    let before = crate::harvest::detected_grid(
        raw,
        a.channels(),
        a.plan.f0_length as nat,
        a.plan.max_candidates as nat,
    );
    law_overlap_exchanges_neighbours(before, a.plan.f0_length as int, n, k, c, d);
}

/// Whether `y` is what a recursive filter of second order makes of `x` at `i`: a sum of
/// inputs and of earlier outputs.
pub open spec fn recurs_twice<T>(
    a: Seq<T>,
    b: Seq<T>,
    x: Seq<T>,
    y: Seq<T>,
    i: int,
    value: spec_fn(T) -> real,
) -> bool {
    entry(y, i, value) == value(b[0]) * entry(x, i, value) + value(b[1]) * entry(x, i - 1, value)
        + value(b[0]) * entry(x, i - 2, value) + value(a[0]) * entry(y, i - 1, value) + value(a[1])
        * entry(y, i - 2, value)
}

spec fn state_at<T: Scalar>(a: Seq<T>, x: Seq<T>, j: int, value: spec_fn(T) -> real) -> real {
    if 0 <= j {
        value(smoothing::inner(a, x[j], smoothing::memory(a, x, j)))
    } else {
        0real
    }
}

proof fn lemma_states<T: Scalar>(
    a: Seq<T>,
    b: Seq<T>,
    x: Seq<T>,
    i: int,
    value: spec_fn(T) -> real,
)
    requires
        exact(value),
        i < x.len(),
    ensures
        state_at(a, x, i, value) == entry(x, i, value) + value(a[0]) * state_at(a, x, i - 1, value)
            + value(a[1]) * state_at(a, x, i - 2, value),
        entry(smoothing::passed(a, b, x), i, value) == value(b[0]) * state_at(a, x, i, value)
            + value(b[1]) * state_at(a, x, i - 1, value) + value(b[0]) * state_at(
            a,
            x,
            i - 2,
            value,
        ),
{
    reveal_with_fuel(smoothing::memory, 3);
    assert(value(zero::<T>()) == 0real);
    if 0 <= i {
        let w = smoothing::memory(a, x, i);
        assert(value(w.0) == state_at(a, x, i - 1, value));
        assert(value(w.1) == state_at(a, x, i - 2, value));
        let n = smoothing::inner(a, x[i], w);
        assert(value(a[0] * w.0) == value(a[0]) * value(w.0));
        assert(value(a[1] * w.1) == value(a[1]) * value(w.1));
        assert(value(b[0] * n) == value(b[0]) * value(n));
        assert(value(b[1] * w.0) == value(b[1]) * value(w.0));
        assert(value(b[0] * w.1) == value(b[0]) * value(w.1));
        assert(smoothing::passed(a, b, x)[i] == smoothing::outer(a, b, x[i], w));
    } else {
        lemma_nothing(value(a[0]));
        lemma_nothing(value(a[1]));
        lemma_nothing(value(b[0]));
        lemma_nothing(value(b[1]));
    }
}

proof fn lemma_three_scale(a: real, b0: real, b1: real, p: real, q: real, r: real)
    ensures
        a * (b0 * p + b1 * q + b0 * r) == b0 * (a * p) + b1 * (a * q) + b0 * (a * r),
{
    lemma_sum_scales(a, b0 * p, b1 * q, b0 * r, 0real);
    lemma_nothing(a);
    lemma_swap(a, b0, p);
    lemma_swap(a, b1, q);
    lemma_swap(a, b0, r);
}

/// Law: each output of the smoothing filter is the sum of the input and the two before
/// it, weighted by `b[0]`, `b[1]`, `b[0]`, and of the two outputs before it, weighted by
/// `a[0]`, `a[1]`.
pub proof fn law_smoothing_filter_recurs<T: Scalar>(
    a: Seq<T>,
    b: Seq<T>,
    x: Seq<T>,
    i: int,
    value: spec_fn(T) -> real,
)
    requires
        exact(value),
        0 <= i < x.len(),
    ensures
        recurs_twice(a, b, x, smoothing::passed(a, b, x), i, value),
{
    let (a0, a1, b0, b1) = (value(a[0]), value(a[1]), value(b[0]), value(b[1]));
    let w = |j: int| state_at(a, x, j, value);
    lemma_states(a, b, x, i, value);
    lemma_states(a, b, x, i - 1, value);
    lemma_states(a, b, x, i - 2, value);
    lemma_three_scale(a0, b0, b1, w(i - 1), w(i - 2), w(i - 3));
    lemma_three_scale(a1, b0, b1, w(i - 2), w(i - 3), w(i - 4));
    lemma_sum_scales(b0, entry(x, i, value), a0 * w(i - 1), a1 * w(i - 2), 0real);
    lemma_sum_scales(b1, entry(x, i - 1, value), a0 * w(i - 2), a1 * w(i - 3), 0real);
    lemma_sum_scales(b0, entry(x, i - 2, value), a0 * w(i - 3), a1 * w(i - 4), 0real);
    lemma_nothing(b0);
    lemma_nothing(b1);
}

/// Frame `q` of a contour, or the nearest of the frames from `s` to `e`.
pub open spec fn held_at<T>(f0: Seq<T>, s: int, e: int, q: int) -> T {
    f0[if q < s {
        s
    } else if e < q {
        e
    } else {
        q
    }]
}

/// The section of the padded contour that holds a run is that run.
proof fn lemma_padded_run<T: Scalar>(
    f0: Seq<T>,
    s: int,
    e: int,
    p: int,
    value: spec_fn(T) -> real,
)
    requires
        exact(value),
        f0.len() + 600 <= usize::MAX,
        0 <= s <= p <= e < f0.len(),
        forall|q: int| s <= q <= e ==> 0real < value(#[trigger] f0[q]),
        0 < s ==> value(f0[s - 1]) <= 0real,
        e < f0.len() - 1 ==> value(f0[e + 1]) <= 0real,
    ensures
        ({
            let b = boundaries(padded(f0));
            let k = section_at(b, p + 300);
            &&& voiced(padded(f0), p + 300)
            &&& in_section(b, k, p + 300)
            &&& b[2 * k] == s + 300
            &&& b[2 * k + 1] == e + 300
        }),
{
    let f = padded(f0);
    let b = boundaries(f);
    law_boundaries_list_sections(f);
    assert(value(zero::<T>()) == 0real);
    let n = f0.len() as int;
    let (lo, hi) = (s + 300, e + 300);
    assert forall|q: int| lo <= q <= hi implies #[trigger] voiced(f, q) by {
        assert(f[q] == f0[q - 300]);
        assert(zero::<T>() < f0[q - 300]);
    }
    assert(!voiced(f, lo - 1)) by {
        if 0 < s {
            assert(f[lo - 1] == f0[s - 1]);
        } else {
            assert(f[lo - 1] == zero::<T>());
        }
    }
    assert(!voiced(f, hi + 1)) by {
        if e < n - 1 {
            assert(f[hi + 1] == f0[e + 1]);
        } else {
            assert(f[hi + 1] == zero::<T>());
        }
    }
    let at = p + 300;
    assert(voiced(f, at));
    let m = choose|m: int| in_section(b, m, at);
    assert(in_section(b, m, at));
    let k = section_at(b, at);
    assert(in_section(b, k, at));
    lemma_run_within_section(f, b, k, at, lo, hi);
    if b[2 * k] < lo {
        assert(in_section(b, k, lo - 1));
    }
    if hi < b[2 * k + 1] {
        assert(in_section(b, k, hi + 1));
    }
}

/// What is held of a section of the padded contour.
proof fn lemma_held<T: Scalar>(f0: Seq<T>, b: Seq<usize>, k: int, s: int, e: int, q: int)
    requires
        0 <= s <= e < f0.len(),
        0 <= q < f0.len() + 600,
        0 <= k < b.len() / 2,
        b[2 * k] == s + 300,
        b[2 * k + 1] == e + 300,
    ensures
        held(channel(padded(f0), b, k), s + 300, e + 300)[q] == held_at(f0, s, e, q - 300),
        held(channel(padded(f0), b, k), s + 300, e + 300).len() == f0.len() + 600,
{
    let r = if q < s + 300 {
        s + 300
    } else if e + 300 < q {
        e + 300
    } else {
        q
    };
    assert(in_section(b, k, r));
    assert(padded(f0)[r] == f0[r - 300]);
}

/// Law: a run of voiced frames is smoothed by itself, its first and its last frequency
/// being held for the rest of the contour and for three hundred frames on either side.
/// It runs through the filter once from its first frame on and once from its last frame
/// back.
pub proof fn law_sections_are_smoothed_by_themselves<T: Scalar>(
    f0: Seq<T>,
    out: Seq<T>,
    s: int,
    e: int,
    p: int,
    value: spec_fn(T) -> real,
) -> (w: (Seq<T>, Seq<T>, Seq<T>))
    requires
        exact(value),
        f0.len() + 600 <= usize::MAX,
        f0.len() <= out.len(),
        0 <= s <= p <= e < f0.len(),
        forall|q: int| s <= q <= e ==> 0real < value(#[trigger] f0[q]),
        0 < s ==> value(f0[s - 1]) <= 0real,
        e < f0.len() - 1 ==> value(f0[e + 1]) <= 0real,
    ensures
        ({
            let (x, once, twice) = w;
            let (a, b) = (feedback::<T>(), feedforward::<T>());
            &&& x.len() == f0.len() + 600
            &&& once.len() == x.len()
            &&& twice.len() == x.len()
            &&& forall|q: int| 0 <= q < x.len() ==> #[trigger] x[q] == held_at(f0, s, e, q - 300)
            &&& forall|i: int|
                0 <= i < x.len() ==> #[trigger] recurs_twice(a, b, x, once, i, value)
            &&& forall|i: int|
                0 <= i < x.len() ==> #[trigger] recurs_twice(
                    a,
                    b,
                    once.reverse(),
                    twice.reverse(),
                    i,
                    value,
                )
            &&& smoothed(f0, out)[p] == twice[p + 300]
        }),
{
    let f = padded(f0);
    let b = boundaries(f);
    lemma_padded_run(f0, s, e, p, value);
    let k = section_at(b, p + 300);
    let x = held(channel(f, b, k), s + 300, e + 300);
    let (fb, ff) = (feedback::<T>(), feedforward::<T>());
    let once = smoothing::passed(fb, ff, x);
    let twice = both_ways(fb, ff, x);
    lemma_held(f0, b, k, s, e, 0);
    assert forall|q: int| 0 <= q < x.len() implies #[trigger] x[q] == held_at(
        f0,
        s,
        e,
        q - 300,
    ) by {
        lemma_held(f0, b, k, s, e, q);
    }
    lemma_both_ways(fb, ff, x, value);
    (x, once, twice)
}

proof fn lemma_both_ways<T: Scalar>(a: Seq<T>, b: Seq<T>, x: Seq<T>, value: spec_fn(T) -> real)
    requires
        exact(value),
    ensures
        ({
            let once = smoothing::passed(a, b, x);
            let twice = both_ways(a, b, x);
            &&& once.len() == x.len()
            &&& twice.len() == x.len()
            &&& forall|i: int|
                0 <= i < x.len() ==> #[trigger] recurs_twice(a, b, x, once, i, value)
            &&& forall|i: int|
                0 <= i < x.len() ==> #[trigger] recurs_twice(
                    a,
                    b,
                    once.reverse(),
                    twice.reverse(),
                    i,
                    value,
                )
        }),
{
    let once = smoothing::passed(a, b, x);
    let twice = both_ways(a, b, x);
    assert forall|i: int| 0 <= i < x.len() implies #[trigger] recurs_twice(
        a,
        b,
        x,
        once,
        i,
        value,
    ) by {
        law_smoothing_filter_recurs(a, b, x, i, value);
    }
    assert(twice.reverse() =~= smoothing::passed(a, b, once.reverse()));
    assert forall|i: int| 0 <= i < x.len() implies #[trigger] recurs_twice(
        a,
        b,
        once.reverse(),
        twice.reverse(),
        i,
        value,
    ) by {
        law_smoothing_filter_recurs(a, b, once.reverse(), i, value);
    }
}

/// Law: the number of candidates taken for all frames is what some frame reports, and no
/// frame reports more.
pub proof fn law_number_of_candidates_is_the_greatest<T: Scalar>(
    raw: Seq<Seq<T>>,
    channels: nat,
    frames: nat,
    limit: nat,
) -> (k: int)
    requires
        0 < frames,
    ensures
        0 <= k < frames,
        most_detected(raw, channels, frames, limit) == detected_number(raw, channels, k, limit),
        forall|j: int|
            0 <= j < frames ==> #[trigger] detected_number(raw, channels, j, limit)
                <= detected_number(raw, channels, k, limit),
    decreases frames,
{
    if frames == 1 {
        reveal_with_fuel(most_detected, 2);
        0
    } else {
        let k = law_number_of_candidates_is_the_greatest(
            raw,
            channels,
            (frames - 1) as nat,
            limit,
        );
        let n = detected_number(raw, channels, frames - 1, limit);
        if detected_number(raw, channels, k, limit) > n {
            k
        } else {
            frames - 1
        }
    }
}

/// Law: the rate is reduced by the whole number that brings it nearest to 8000, as far as
/// that lies from 1 to 12.
pub proof fn law_rate_comes_near_8000<T: Scalar>(
    x_length: usize,
    fs: i32,
    option: HarvestOption<T>,
    value: spec_fn(T) -> real,
)
    requires
        exact(value),
        exact_rounding(value),
    ensures
        ({
            let q = request_for(x_length, fs, option);
            let r = q.ratio();
            let apart = 8000real * (r as real) - (fs as int as real);
            &&& 1 <= r <= 12
            &&& -4000real <= apart || r == 12
            &&& apart <= 4000real || r == 1
        }),
{
    let x = T::of_int(fs as int) / T::of_int(8000);
    assert(value(x) * 8000real == fs as int as real);
    lemma_rounded(x, value);
}

} // verus!
