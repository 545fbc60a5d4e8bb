//! What holds of analyses in fixed-point numbers: above all, when they succeed.
use crate::analysis::{Analysis, Fault};
use crate::basics::{rounded, safe_guard, zero};
use crate::batch::{ArrayEstimate, ArrayFault, array_outcome, fills, lemma_row_length, row};
use crate::candidates::{
    agreeing, channel_total, detected, falls, in_run, law_candidates_come_from_runs, rises,
    run_mean, shorter, wide_runs,
};
use crate::estimator::{Heard, Refined, estimates, fails, leads_to, possible, request_for};
use crate::fixed::{
    Fixed, cut_quotient, exponential_series, law_fixed_is_ordered, law_fixed_is_totally_ordered,
    law_fixed_milliseconds_come_back, lemma_cut_quotient_ordered, lemma_half, log_two,
    logarithm_of, logarithm_series, nested, saturated, scaled_by_two,
};
use crate::harvest::{
    HarvestOption, Plan, Request, boundary, filter_fits, frame_number, frame_times,
    lemma_reduced_length, margin, nearest_frame, reduced_length, reduced_rate, unit_period,
};
use crate::outcome::{
    Transforms, computes, law_coarser_frames_pick_from_finer, law_contour_follows, steps_by,
    steps_walk,
};
use crate::refine::{basic_index, half_window, window_length};
use crate::scalar::Scalar;
use crate::spectrum::{Complex, half_length};
use crate::success::{
    array_estimated_by, estimable, full_transforms, law_arrays_are_estimated,
    law_candidates_were_detected, law_estimate_succeeds, law_every_channel_fits,
    law_heard_contours_are_within_bounds, law_higher_candidates_have_shorter_windows,
    steady_numbers, workable,
};
use crate::waveform::lemma_lead;
use vstd::arithmetic::power::pow;
use vstd::arithmetic::power2::{lemma_pow2_adds, lemma2_to64, pow2};
use vstd::prelude::*;

verus! {

proof fn lemma_decimals()
    ensures
        Fixed::of_decimal(9, 1).units == 900_000,
        Fixed::of_decimal(15, 1).units == 1_500_000,
        Fixed::of_decimal(1, 3).units == 1_000,
        Fixed::of_decimal(5, 1).units == 500_000,
        log_two().units == 693_147,
{
    lemma_half();
    reveal_with_fuel(pow, 7);
    assert(pow(10, 1) == 10);
    assert(pow(10, 3) == 1_000);
    assert(pow(10, 6) == 1_000_000);
    assert(cut_quotient(9_000_000, 10) == 900_000);
    assert(cut_quotient(15_000_000, 10) == 1_500_000);
    assert(cut_quotient(1_000_000, 1_000) == 1_000);
    assert(cut_quotient(693_147_000_000, 1_000_000) == 693_147);
}

proof fn lemma_product_ordered(a: int, b: int, c: int, d: int)
    requires
        0 <= a <= b,
        0 <= c <= d,
    ensures
        0 <= a * c <= b * d,
{
    assert(0 <= a * c <= b * d) by (nonlinear_arith)
        requires
            0 <= a <= b,
            0 <= c <= d,
    ;
}

/// A step of a nested series grows with both its arguments.
proof fn lemma_nested_ordered(s: Fixed, t: Fixed, d: int, q: Fixed, r: Fixed)
    requires
        0 <= s.units <= t.units,
        1 <= d <= 1000,
        0 <= q.units <= r.units,
    ensures
        1_000_000 <= nested(s, d, q).units <= nested(t, d, r).units,
{
    let e = Fixed::of_int(d);
    assert(e.units == d * 1_000_000);
    lemma_cut_quotient_ordered(s.units * 1_000_000, t.units * 1_000_000, e.units as int);
    let a = s / e;
    let b = t / e;
    lemma_product_ordered(a.units as int, b.units as int, q.units as int, r.units as int);
    lemma_cut_quotient_ordered(a.units * q.units, b.units * r.units, 1_000_000);
}

/// The exponential series grows from 1 on.
proof fn lemma_series_ordered(s: Fixed, t: Fixed)
    requires
        0 <= s.units <= t.units,
    ensures
        1_000_000 <= exponential_series(s).units <= exponential_series(t).units,
{
    let one = Fixed::of_int(1);
    lemma_nested_ordered(s, t, 8, one, one);
    let (a8, b8) = (nested(s, 8, one), nested(t, 8, one));
    lemma_nested_ordered(s, t, 7, a8, b8);
    let (a7, b7) = (nested(s, 7, a8), nested(t, 7, b8));
    lemma_nested_ordered(s, t, 6, a7, b7);
    let (a6, b6) = (nested(s, 6, a7), nested(t, 6, b7));
    lemma_nested_ordered(s, t, 5, a6, b6);
    let (a5, b5) = (nested(s, 5, a6), nested(t, 5, b6));
    lemma_nested_ordered(s, t, 4, a5, b5);
    let (a4, b4) = (nested(s, 4, a5), nested(t, 4, b5));
    lemma_nested_ordered(s, t, 3, a4, b4);
    let (a3, b3) = (nested(s, 3, a4), nested(t, 3, b4));
    lemma_nested_ordered(s, t, 2, a3, b3);
    let (a2, b2) = (nested(s, 2, a3), nested(t, 2, b3));
    lemma_nested_ordered(s, t, 1, a2, b2);
}

/// The value of a step of a nested series, `k` being the quotient without its
/// fraction.
proof fn lemma_nested_value(t: int, d: int, r: int, k: int)
    requires
        0 <= t <= 1_000_000,
        1 <= d <= 1000,
        0 <= r <= 2_000_000,
        k == t / d,
    ensures
        nested(Fixed { units: t as i64 }, d, Fixed { units: r as i64 }).units == 1_000_000 + (k * r)
            / 1_000_000,
{
    let a = Fixed { units: t as i64 };
    let e = Fixed::of_int(d);
    assert(e.units == d * 1_000_000);
    vstd::arithmetic::div_mod::lemma_div_multiples_vanish_quotient(1_000_000, t, d);
    vstd::arithmetic::div_mod::lemma_div_pos_is_pos(t, d);
    vstd::arithmetic::div_mod::lemma_div_nonincreasing(t, d);
    assert((a / e).units == k);
    lemma_product_ordered(0, k, 0, r);
    lemma_product_ordered(k, 1_000_000, r, 2_000_000);
}

/// Below the logarithm of two the exponential series stays below 2.
proof fn lemma_series_below_two(t: Fixed)
    requires
        0 <= t.units <= 693_146,
    ensures
        exponential_series(t).units <= 2_000_000,
{
    lemma_series_ordered(t, Fixed { units: 693_146 });
    lemma_nested_value(693_146, 8, 1_000_000, 86_643);
    lemma_nested_value(693_146, 7, 1_086_643, 99_020);
    lemma_nested_value(693_146, 6, 1_107_599, 115_524);
    lemma_nested_value(693_146, 5, 1_127_954, 138_629);
    lemma_nested_value(693_146, 4, 1_156_367, 173_286);
    lemma_nested_value(693_146, 3, 1_200_382, 231_048);
    lemma_nested_value(693_146, 2, 1_277_345, 346_573);
    lemma_nested_value(693_146, 1, 1_442_693, 693_146);
    assert(Fixed::of_int(1) == (Fixed { units: 1_000_000 }));
}

/// Doubling keeps order.
proof fn lemma_scaling_ordered(a: i64, b: i64, n: int)
    requires
        0 <= a <= b,
        0 <= n,
    ensures
        a <= scaled_by_two(a, n) <= scaled_by_two(b, n),
    decreases n,
{
    if n > 0 {
        lemma_scaling_ordered(saturated(2 * a), saturated(2 * b), n - 1);
    }
}

/// More doublings give no less.
proof fn lemma_scaling_grows(a: i64, m: int, n: int)
    requires
        0 <= a,
        0 <= m <= n,
    ensures
        scaled_by_two(a, m) <= scaled_by_two(a, n),
    decreases m,
{
    if m == 0 {
        lemma_scaling_ordered(a, a, n);
    } else {
        lemma_scaling_grows(saturated(2 * a), m - 1, n - 1);
    }
}

/// A number whose product is out of range is doubled to the end of the range.
proof fn lemma_scaling_ends(a: i64, n: nat)
    requires
        0 < a,
        a * pow2(n) >= i64::MAX,
    ensures
        scaled_by_two(a, n as int) == i64::MAX,
    decreases n,
{
    lemma2_to64();
    if n == 0 {
        assert(a * pow2(0) == a) by {
            assert(pow2(0) == 1);
        }
    } else if 2 * a >= i64::MAX {
        lemma_scaling_ordered(i64::MAX, i64::MAX, n - 1);
    } else {
        let m = (n - 1) as nat;
        lemma_pow2_adds(1, m);
        assert(pow2(n) == 2 * pow2(m));
        assert((2 * a) * pow2(m) == a * (2 * pow2(m))) by (nonlinear_arith);
        lemma_scaling_ends((2 * a) as i64, m);
    }
}

/// What the power of two of a number that is not negative is made of: a factor
/// from 1 up to 2, doubled so many times.
proof fn lemma_power_parts(x: Fixed) -> (r: (Fixed, int))
    requires
        0 <= x.units,
    ensures
        0 <= r.0.units <= 693_146,
        r.0.units == ((x.units % 1_000_000) * 693_147) / 1_000_000,
        r.1 == x.units as int / 1_000_000,
        x.power_of_two().units == scaled_by_two(
            exponential_series(r.0).units,
            if r.1 > 64 {
                64
            } else {
                r.1
            },
        ),
        1_000_000 <= exponential_series(r.0).units <= 2_000_000,
{
    lemma_decimals();
    let u = x.units as int;
    let whole = x.rounded_down();
    assert(whole.units == u - u % 1_000_000);
    let f = x - whole;
    assert(f.units == u % 1_000_000);
    let t = f * log_two();
    assert(f.units * log_two().units == (u % 1_000_000) * 693_147);
    assert(t.units == ((u % 1_000_000) * 693_147) / 1_000_000);
    lemma_series_ordered(t, t);
    lemma_series_below_two(t);
    assert(cut_quotient(whole.units as int, 1_000_000) == u / 1_000_000);
    (t, u / 1_000_000)
}

/// Powers of two of numbers that are not negative are 1 or more and keep order.
proof fn lemma_powers_ordered(x: Fixed, y: Fixed)
    requires
        0 <= x.units <= y.units,
    ensures
        1_000_000 <= x.power_of_two().units <= y.power_of_two().units,
{
    let (s, m) = lemma_power_parts(x);
    let (t, n) = lemma_power_parts(y);
    let a = exponential_series(s).units;
    let b = exponential_series(t).units;
    let k = if m > 64 { 64 } else { m };
    let l = if n > 64 { 64 } else { n };
    lemma_scaling_ordered(a, a, k);
    if m == n {
        assert(s.units <= t.units);
        lemma_series_ordered(s, t);
        lemma_scaling_ordered(a, b, k);
    } else if k < l {
        lemma_scaling_ordered(a, 2_000_000, k);
        lemma_scaling_grows(1_000_000, k + 1, l);
        assert(scaled_by_two(1_000_000, k + 1) == scaled_by_two(2_000_000, k));
        lemma_scaling_ordered(1_000_000, b, l);
    } else {
        lemma2_to64();
        assert(b * pow2(64) >= i64::MAX) by (nonlinear_arith)
            requires
                b >= 1_000_000,
                pow2(64) == 0x10000000000000000,
        ;
        lemma_scaling_ends(b, 64);
    }
}

/// Rounding keeps order.
#[verifier::rlimit(40)]
proof fn lemma_rounding_ordered(x: Fixed, y: Fixed)
    requires
        x.units <= y.units,
    ensures
        rounded(x) <= rounded(y),
{
    lemma_decimals();
}

/// Doubling before a division, or after it, comes to the same up to a sample.
proof fn lemma_doubling(x: Fixed, d: Fixed)
    requires
        0 <= x.units <= 2_147_483_647_000_000,
        0 < d.units,
    ensures
        rounded((x / d) * Fixed::of_int(2)) <= ((Fixed::of_int(2) * x) / d).as_usize() + 1,
{
    lemma_decimals();
    let two = Fixed::of_int(2);
    let a = x.units * 1_000_000;
    let e = d.units as int;
    let q = a / e;
    vstd::arithmetic::div_mod::lemma_div_pos_is_pos(a, e);
    vstd::arithmetic::div_mod::lemma_fundamental_div_mod(a, e);
    let z = x / d;
    assert(two.units == 2_000_000);
    assert(z.units <= q);
    assert(z.units * two.units == z.units * 2_000_000);
    assert((z * two).units <= 2 * z.units);
    let w = two * x;
    assert(two.units * x.units == 2_000_000 * x.units);
    assert(w.units == 2 * x.units);
    let p = (2 * a) / e;
    assert(2 * q <= p) by {
        assert(e * (2 * q) == 2 * (e * q)) by (nonlinear_arith);
        vstd::arithmetic::div_mod::lemma_mod_bound(a, e);
        vstd::arithmetic::div_mod::lemma_div_is_ordered(e * (2 * q), 2 * a, e);
        vstd::arithmetic::div_mod::lemma_div_multiples_vanish(2 * q, e);
    }
    assert((w / d).units == saturated(p));
}

/// Law: fixed-point numbers are steady.
pub proof fn law_fixed_is_steady()
    ensures
        steady_numbers::<Fixed>(),
{
    let o = zero::<Fixed>();
    let two = Fixed::of_int(2);
    law_fixed_is_ordered();
    law_fixed_is_totally_ordered();
    assert forall|x: Fixed, y: Fixed, k: Fixed|
        #![trigger x * k, y * k]
        o < k && k.finite() && x.finite() && y.finite() && x <= y implies x * k <= y * k by {
        assert(x.units * k.units <= y.units * k.units) by (nonlinear_arith)
            requires
                x.units <= y.units,
                0 < k.units,
        ;
        lemma_cut_quotient_ordered(x.units * k.units, y.units * k.units, 1_000_000);
    }
    assert forall|x: Fixed, d: Fixed, e: Fixed|
        #![trigger x / d, x / e]
        x.finite() && d.finite() && e.finite() && o <= x && o < d && d <= e implies o <= x / e && x
        / e <= x / d by {
        let a = x.units * 1_000_000;
        vstd::arithmetic::div_mod::lemma_div_pos_is_pos(a, e.units as int);
        vstd::arithmetic::div_mod::lemma_div_is_ordered_by_denominator(
            a,
            d.units as int,
            e.units as int,
        );
    }
    assert forall|x: Fixed, y: Fixed|
        #![trigger x.power_of_two(), y.power_of_two()]
        x.finite() && y.finite() && o <= x && x <= y implies x.power_of_two()
        <= y.power_of_two() by {
        lemma_powers_ordered(x, y);
    }
    assert forall|x: Fixed, y: Fixed|
        #![trigger rounded(x), rounded(y)]
        !x.undefined() && !y.undefined() && x <= y implies rounded(x) <= rounded(y) by {
        lemma_rounding_ordered(x, y);
    }
    assert forall|x: Fixed, d: Fixed|
        #![trigger (x / d) * two]
        x.finite() && d.finite() && o <= x && x <= Fixed::of_int(i32::MAX as int) && o
            < d implies rounded((x / d) * two) <= ((two * x) / d).as_usize() + 1 by {
        lemma_doubling(x, d);
    }
}

/// The reduced rate in units.
proof fn lemma_rate(fs: int, ratio: int)
    requires
        0 < fs <= i32::MAX,
        1 <= ratio <= 12,
    ensures
        reduced_rate::<Fixed>(fs, ratio).units == (fs * 1_000_000) / ratio,
        83_333 <= reduced_rate::<Fixed>(fs, ratio).units <= fs * 1_000_000,
{
    let a = Fixed::of_int(fs);
    let b = Fixed::of_int(ratio);
    assert(a.units == fs * 1_000_000);
    assert(b.units == ratio * 1_000_000);
    let n = fs * 1_000_000;
    vstd::arithmetic::div_mod::lemma_div_pos_is_pos(n, ratio);
    vstd::arithmetic::div_mod::lemma_div_nonincreasing(n, ratio);
    vstd::arithmetic::div_mod::lemma_div_is_ordered_by_denominator(n, ratio, 12);
    vstd::arithmetic::div_mod::lemma_div_multiples_vanish_quotient(1_000_000, n, ratio);
}

/// Law: in fixed-point numbers, with a positive rate, a positive floor and a
/// positive number of channels in an octave, the filter of every channel of a plan
/// fits the transform.
pub proof fn law_fixed_every_channel_fits(q: Request<Fixed>, plan: Plan<Fixed>, i: int)
    requires
        q.feasible(),
        plan.answers(q),
        0 < q.fs,
        0 < q.f0_floor.units,
        0 < q.channels_in_octave.units,
        0 <= i < q.channels(),
    ensures
        filter_fits(
            plan.boundary_f0_list@[i],
            plan.actual_fs,
            plan.y_length as int,
            plan.fft_size as int,
        ),
{
    lemma_decimals();
    law_fixed_is_steady();
    lemma_rate(q.fs as int, q.ratio());
    let low = q.f0_floor * Fixed::of_decimal(9, 1);
    let c = q.channels_in_octave;
    let fs = plan.actual_fs;
    if low.units == 0 {
        lemma_silent_channels_fit(q, plan, i);
    } else {
        let first = (Fixed::of_int(0) + Fixed::of_int(1)) / c;
        lemma_cut_quotient_ordered(0, 1_000_000_000_000, c.units as int);
        assert(0 <= first.units);
        lemma_lowest_is_positive(low, first);
        law_every_channel_fits(q, plan, i);
    }
}

proof fn lemma_lowest_is_positive(low: Fixed, first: Fixed)
    requires
        0 < low.units,
        0 <= first.units,
    ensures
        0 < (low * first.power_of_two()).units,
{
    lemma_powers_ordered(first, first);
    let p = first.power_of_two();
    lemma_product_ordered(low.units as int, low.units as int, 1_000_000, p.units as int);
}

/// With a floor so low that the frequencies of all channels are zero, the filters
/// fit all the same.
proof fn lemma_silent_channels_fit(q: Request<Fixed>, plan: Plan<Fixed>, i: int)
    requires
        q.feasible(),
        plan.answers(q),
        0 < plan.actual_fs.units,
        (q.f0_floor * Fixed::of_decimal(9, 1)).units == 0,
        0 <= i < q.channels(),
    ensures
        filter_fits(
            plan.boundary_f0_list@[i],
            plan.actual_fs,
            plan.y_length as int,
            plan.fft_size as int,
        ),
{
    let fs = plan.actual_fs;
    let two = Fixed::of_int(2);
    let b = plan.boundary_f0_list@[i];
    lemma_nothing_times(q.f0_floor * Fixed::of_decimal(9, 1), b, q, i);
    lemma_nothing_times(q.f0_floor * Fixed::of_decimal(9, 1), q.lowest(), q, 0);
    let p = two * fs;
    assert(two.units == 2_000_000);
    assert(two.units * fs.units == 2_000_000 * fs.units);
    assert(0 < p.units);
    assert((p / q.lowest()).units == i64::MAX);
    assert(margin::<Fixed>(q.fs as int, q.ratio(), q.lowest()) >= i32::MAX);
    assert(half_length(b, fs) <= i32::MAX);
}

proof fn lemma_nothing_times(low: Fixed, b: Fixed, q: Request<Fixed>, i: int)
    requires
        low.units == 0,
        low == q.f0_floor * Fixed::of_decimal(9, 1),
        b == boundary(q.f0_floor, q.channels_in_octave, i),
    ensures
        b.units == 0,
{
    let p = ((Fixed::of_int(i) + Fixed::of_int(1)) / q.channels_in_octave).power_of_two();
    assert(low.units * p.units == 0);
}

/// Division by a positive whole number.
proof fn lemma_whole_divisor(a: Fixed, n: int)
    requires
        0 <= a.units,
        0 < n <= i32::MAX,
    ensures
        (a / Fixed::of_int(n)).units == a.units as int / n,
        0 <= (a / Fixed::of_int(n)).units <= a.units,
        n * (a / Fixed::of_int(n)).units <= a.units,
{
    let u = a.units as int;
    assert(Fixed::of_int(n).units == n * 1_000_000);
    vstd::arithmetic::div_mod::lemma_div_multiples_vanish_quotient(1_000_000, u, n);
    vstd::arithmetic::div_mod::lemma_div_pos_is_pos(u, n);
    vstd::arithmetic::div_mod::lemma_div_nonincreasing(u, n);
    vstd::arithmetic::div_mod::lemma_fundamental_div_mod(u, n);
    vstd::arithmetic::div_mod::lemma_mod_bound(u, n);
}

/// Where the frames of `q` lie: frame `k` at `k` periods, and not beyond the end of
/// the signal.
proof fn lemma_frame_position(q: Request<Fixed>, k: int)
    requires
        q.feasible(),
        0 < q.fs,
        0 < q.frame_period,
        0 <= k < q.frames(),
    ensures
        0 <= k * q.frame_period,
        frame_times(q.frames() as nat, Fixed::of_int(q.frame_period as int))[k].units == (k
            * q.frame_period) * 1000,
        (k * q.frame_period) * 1_000_000 <= i64::MAX,
        (k * q.frame_period) * q.fs <= 1000 * q.x_length,
{
    let x = q.x_length as int;
    let fs = q.fs as int;
    let p = q.frame_period as int;
    let m1 = Fixed::of_int(1000) * Fixed::of_int(x);
    assert(Fixed::of_int(1000).units * Fixed::of_int(x).units == 1_000_000_000 * Fixed::of_int(
        x,
    ).units);
    assert(0 <= m1.units <= 1_000_000_000 * x);
    let m2 = m1 / Fixed::of_int(fs);
    lemma_whole_divisor(m1, fs);
    let m3 = m2 / Fixed::of_int(p);
    lemma_whole_divisor(m2, p);
    assert(k <= m3.as_usize());
    assert(k * 1_000_000 <= m3.units);
    let n = k * p;
    assert(n * 1_000_000 <= m2.units) by {
        assert(p * (k * 1_000_000) <= p * m3.units) by (nonlinear_arith)
            requires
                0 < p,
                k * 1_000_000 <= m3.units,
        ;
        assert(p * (k * 1_000_000) == (k * p) * 1_000_000) by (nonlinear_arith);
    }
    assert((n * fs) * 1_000_000 <= m1.units) by {
        assert(fs * (n * 1_000_000) <= fs * m2.units) by (nonlinear_arith)
            requires
                0 < fs,
                n * 1_000_000 <= m2.units,
        ;
        assert(fs * (n * 1_000_000) == (n * fs) * 1_000_000) by (nonlinear_arith);
    }
    assert(0 <= n) by {
        lemma_product_ordered(0, k, 0, p);
    }
    let a = Fixed::of_int(k);
    let b = Fixed::of_int(p);
    assert(a.units == k * 1_000_000);
    assert(b.units == p * 1_000_000);
    assert(a.units * b.units == (n * 1_000_000) * 1_000_000) by (nonlinear_arith)
        requires
            a.units == k * 1_000_000,
            b.units == p * 1_000_000,
            n == k * p,
    ;
    assert((a * b).units == n * 1_000_000);
    lemma_whole_divisor(a * b, 1000);
}

/// A window of `2 * h + 1` samples around a time within `y` samples starts no more
/// than `h` samples before the first sample, and not after the last.
proof fn lemma_window_start(position: Fixed, fs: Fixed, h: int, y: int)
    requires
        0 <= position.units <= i64::MAX / 2,
        83_333 <= fs.units,
        position.units * fs.units <= 1_000_000_000_000 * y,
        0 <= h <= i32::MAX,
        0 < y <= i32::MAX,
    ensures
        -h <= basic_index(position, (-Fixed::of_int(h) + Fixed::of_int(0)) / fs, fs) <= y,
{
    lemma_decimals();
    let a = fs.units as int;
    let n = -Fixed::of_int(h) + Fixed::of_int(0);
    assert(n.units == -(h * 1_000_000));
    let c = h * 1_000_000_000_000;
    let t = c / a;
    vstd::arithmetic::div_mod::lemma_div_pos_is_pos(c, a);
    vstd::arithmetic::div_mod::lemma_div_is_ordered_by_denominator(c, 83_333, a);
    vstd::arithmetic::div_mod::lemma_fundamental_div_mod(c, a);
    vstd::arithmetic::div_mod::lemma_mod_bound(c, a);
    let first = n / fs;
    assert(first.units == -t);
    let s = position + first;
    assert(s.units == position.units - t);
    assert(s.units * a <= position.units * a && -(t * a) <= s.units * a) by (nonlinear_arith)
        requires
            s.units == position.units - t,
            0 <= t,
            0 <= position.units,
            0 < a,
    ;
    vstd::arithmetic::mul::lemma_mul_is_commutative(t, a);
    assert(-c <= s.units * a <= 1_000_000_000_000 * y);
    let w = s * fs;
    assert(-(h * 1_000_000) <= w.units <= 1_000_000 * y) by {
        lemma_cut_quotient_ordered(-c, s.units * a, 1_000_000);
        lemma_cut_quotient_ordered(s.units * a, 1_000_000_000_000 * y, 1_000_000);
        assert(cut_quotient(-c, 1_000_000) == -(h * 1_000_000));
        assert(cut_quotient(1_000_000_000_000 * y, 1_000_000) == 1_000_000 * y);
    }
}

/// What is asked of a request so that candidates down to its floor can be refined:
/// rate, floor and frame period are positive, there are samples, and the window for
/// the floor, together with the samples, stays within the range of indices.
pub open spec fn refines_down_to_floor(q: Request<Fixed>) -> bool {
    let fs = reduced_rate::<Fixed>(q.fs as int, q.ratio());
    let y_length = reduced_length(q.x_length as int, q.ratio());
    let n = window_length(fs, q.f0_floor);
    &&& 0 < q.fs
    &&& 0 < q.frame_period
    &&& 0 < q.f0_floor.units
    &&& 0 < q.x_length
    &&& y_length + n <= i32::MAX + 1
    &&& 4 * n <= usize::MAX
}

/// Law: in fixed-point numbers, every candidate that is not below the floor can be
/// refined, in every frame, if the window for the floor stays in range.
pub proof fn law_fixed_candidates_are_refinable(a: Analysis<Fixed>, k: int, f0: Fixed)
    requires
        a.well_formed(),
        refines_down_to_floor(a.request),
        0 <= k < a.plan.f0_length,
        a.request.f0_floor.units <= f0.units,
    ensures
        a.refinable(k, f0),
{
    let q = a.request;
    let fs = a.plan.actual_fs;
    let ratio = q.ratio();
    let y = a.plan.y_length as int;
    let position = a.temporal_positions@[k];
    let n = k * q.frame_period;
    lemma_decimals();
    lemma_rate(q.fs as int, ratio);
    lemma_frame_position(q, k);
    assert(position.units == n * 1000);
    lemma_position_within(q, n, fs.units as int, y);
    law_fixed_is_steady();
    assert(Fixed::of_decimal(15, 1).units * fs.units == 1_500_000 * fs.units);
    law_higher_candidates_have_shorter_windows(fs, q.f0_floor, f0);
    lemma_window_start(position, fs, half_window(fs, f0), y);
}

proof fn lemma_position_within(q: Request<Fixed>, n: int, rate: int, y: int)
    requires
        0 < q.fs,
        0 < q.x_length,
        1 <= q.ratio() <= 12,
        0 <= n,
        n * q.fs <= 1000 * q.x_length,
        rate == (q.fs * 1_000_000) / q.ratio(),
        y == reduced_length(q.x_length as int, q.ratio()),
    ensures
        0 < y,
        (n * 1000) * rate <= 1_000_000_000_000 * y,
{
    let d = q.ratio();
    let f = q.fs * 1_000_000;
    let x = q.x_length as int;
    vstd::arithmetic::div_mod::lemma_fundamental_div_mod(f, d);
    vstd::arithmetic::div_mod::lemma_mod_bound(f, d);
    assert(d * rate <= f);
    vstd::arithmetic::div_mod::lemma_fundamental_div_mod(x + d - 1, d);
    vstd::arithmetic::div_mod::lemma_mod_bound(x + d - 1, d);
    assert(x <= d * y);
    assert(0 < y) by (nonlinear_arith)
        requires
            0 < x <= d * y,
            1 <= d,
    ;
    assert(d * ((n * 1000) * rate) <= d * (1_000_000_000_000 * y)) by {
        assert(d * ((n * 1000) * rate) == (n * 1000) * (d * rate)) by (nonlinear_arith);
        assert((n * 1000) * (d * rate) <= (n * 1000) * f) by (nonlinear_arith)
            requires
                0 <= n,
                d * rate <= f,
        ;
        assert((n * 1000) * f == (n * q.fs) * 1_000_000_000) by (nonlinear_arith)
            requires
                f == q.fs * 1_000_000,
        ;
        assert(d * (1_000_000_000_000 * y) == 1_000_000_000_000 * (d * y)) by (nonlinear_arith);
    }
    assert((n * 1000) * rate <= 1_000_000_000_000 * y) by (nonlinear_arith)
        requires
            d * ((n * 1000) * rate) <= d * (1_000_000_000_000 * y),
            1 <= d,
    ;
}

proof fn lemma_wide_runs_in_range(st: Seq<usize>, ed: Seq<usize>, n: int, c: int)
    requires
        0 <= c < wide_runs(st, ed, n).len(),
    ensures
        0 <= wide_runs(st, ed, n)[c] < n,
    decreases n,
{
    if n > 0 && c < wide_runs(st, ed, n - 1).len() {
        lemma_wide_runs_in_range(st, ed, n - 1, c);
    }
}

proof fn lemma_total_above(raw: Seq<Seq<Fixed>>, frame: int, lo: int, hi: int, floor: int)
    requires
        lo <= hi,
        0 <= floor,
        (hi - lo) * floor <= i64::MAX,
        forall|k: int| lo <= k < hi ==> floor <= (#[trigger] raw[k])[frame].units,
    ensures
        (hi - lo) * floor <= channel_total(raw, frame, lo, hi).units,
    decreases hi - lo,
{
    if lo < hi {
        let n = hi - lo;
        assert((n - 1) * floor + floor == n * floor) by (nonlinear_arith);
        lemma_total_above(raw, frame, lo, hi - 1, floor);
        assert(floor <= raw[hi - 1][frame].units);
    } else {
        assert((hi - lo) * floor == 0) by (nonlinear_arith)
            requires
                hi == lo,
        ;
    }
}

/// The mean of numbers that are not below `floor` is not below it.
proof fn lemma_mean_above(raw: Seq<Seq<Fixed>>, frame: int, lo: int, hi: int, floor: int)
    requires
        lo < hi <= lo + i32::MAX,
        0 <= floor,
        (hi - lo) * floor <= i64::MAX,
        forall|k: int| lo <= k < hi ==> floor <= (#[trigger] raw[k])[frame].units,
    ensures
        floor <= run_mean(raw, frame, lo, hi).units,
{
    let n = hi - lo;
    let t = channel_total(raw, frame, lo, hi);
    lemma_total_above(raw, frame, lo, hi, floor);
    lemma_product_ordered(0, n, 0, floor);
    lemma_whole_divisor(t, n);
    vstd::arithmetic::div_mod::lemma_div_is_ordered(n * floor, t.units as int, n);
    vstd::arithmetic::div_mod::lemma_div_multiples_vanish(floor, n);
}

/// Law: in fixed-point numbers, where every channel is zero or not below `floor` at
/// a frame, so is every candidate detected there.
pub proof fn law_fixed_detected_above(
    raw: Seq<Seq<Fixed>>,
    channels: nat,
    frame: int,
    c: int,
    floor: int,
)
    requires
        0 < channels <= i32::MAX,
        0 <= c,
        0 < floor,
        channels * floor <= i64::MAX,
        forall|i: int|
            0 <= i < channels ==> (#[trigger] raw[i])[frame].units == 0 || floor
                <= raw[i][frame].units,
    ensures
        detected(raw, channels, frame, c).units == 0 || floor <= detected(
            raw,
            channels,
            frame,
            c,
        ).units,
{
    let v = agreeing(raw, channels, frame);
    let (st, ed) = (rises(v), falls(v));
    law_candidates_come_from_runs(raw, channels, frame);
    let wide = wide_runs(st, ed, shorter(st, ed));
    if c < wide.len() {
        lemma_wide_runs_in_range(st, ed, shorter(st, ed), c);
        let m = wide[c];
        let (lo, hi) = (st[m] as int, ed[m] as int);
        assert(0 < lo < hi < channels);
        assert forall|k: int| lo <= k < hi implies floor <= (#[trigger] raw[k])[frame].units by {
            assert(in_run(st, ed, m, k));
            assert(v[k]);
        }
        assert((hi - lo) * floor <= channels * floor) by (nonlinear_arith)
            requires
                0 <= hi - lo <= channels,
                0 < floor,
        ;
        lemma_mean_above(raw, frame, lo, hi, floor);
    }
}

/// Law: an analysis in fixed-point numbers is workable, if the window for its floor
/// stays in range and the values of all channels can be added up.
pub proof fn law_fixed_analysis_is_workable<F, G>(
    a: Analysis<Fixed>,
    forward: F,
    inverse: G,
) where F: Fn(Vec<Fixed>) -> Vec<Complex<Fixed>>, G: Fn(Vec<Complex<Fixed>>, usize) -> Vec<Fixed>
    requires
        a.well_formed(),
        refines_down_to_floor(a.request),
        0 < a.request.channels_in_octave.units,
        a.request.channels() <= i32::MAX,
        a.request.channels() * a.request.f0_floor.units <= i64::MAX,
    ensures
        workable(a, forward, inverse),
{
    let q = a.request;
    assert forall|i: int| 0 <= i < a.channels() implies #[trigger] a.channel_fits(i) by {
        law_fixed_every_channel_fits(q, a.plan, i);
    }
    assert forall|raw: Seq<Seq<Fixed>>, k: int, j: int|
        #![trigger a.hears_all(forward, inverse, raw), a.candidate_grid(raw)[k][j]]
        a.hears_all(forward, inverse, raw) && 0 <= k < a.plan.f0_length && 0 <= j
            < a.plan.max_candidates implies a.refinable(k, a.candidate_grid(raw)[k][j]) by {
        let (frame, c) = law_candidates_were_detected(a, raw, k, j);
        assert forall|i: int| 0 <= i < a.channels() implies (#[trigger] raw[i])[frame].units == 0
            || q.f0_floor.units <= raw[i][frame].units by {
            law_heard_contours_are_within_bounds(a, forward, inverse, raw, i, frame);
        }
        law_fixed_detected_above(raw, a.channels(), frame, c, q.f0_floor.units as int);
        let f0 = detected(raw, a.channels(), frame, c);
        if f0.units != 0 {
            law_fixed_candidates_are_refinable(a, k, f0);
        }
    }
}

/// A product of numbers that are not negative.
proof fn lemma_times_bound(x: Fixed, y: Fixed, a: int, b: int)
    requires
        0 <= x.units <= a,
        0 <= y.units <= b,
    ensures
        0 <= (x * y).units <= (a * b) / 1_000_000,
{
    lemma_product_ordered(x.units as int, a, y.units as int, b);
}

/// The logarithm of a number from 1 up to 2 is below 1.1.
proof fn lemma_logarithm_series_bound(x: Fixed)
    requires
        1_000_000 <= x.units < 2_000_000,
    ensures
        logarithm_series(x).units <= 1_100_000,
{
    let one = Fixed::of_int(1);
    let a = x - one;
    let b = x + one;
    let z = a / b;
    assert(0 <= z.units <= 500_000) by {
        let n = a.units * 1_000_000;
        vstd::arithmetic::div_mod::lemma_div_pos_is_pos(n, b.units as int);
        vstd::arithmetic::div_mod::lemma_div_is_ordered_by_denominator(
            n,
            2_000_000,
            b.units as int,
        );
    }
    let t = z * z;
    lemma_times_bound(z, z, 500_000, 500_000);
    let e11 = one / Fixed::of_int(11);
    lemma_whole_divisor(one, 11);
    lemma_times_bound(t, e11, 250_000, 90_909);
    let e9 = one / Fixed::of_int(9) + t * e11;
    lemma_whole_divisor(one, 9);
    lemma_times_bound(t, e9, 250_000, 140_000);
    let e7 = one / Fixed::of_int(7) + t * e9;
    lemma_whole_divisor(one, 7);
    lemma_times_bound(t, e7, 250_000, 180_000);
    let e5 = one / Fixed::of_int(5) + t * e7;
    lemma_whole_divisor(one, 5);
    lemma_times_bound(t, e5, 250_000, 250_000);
    let e3 = one / Fixed::of_int(3) + t * e5;
    lemma_whole_divisor(one, 3);
    lemma_times_bound(t, e3, 250_000, 400_000);
    lemma_times_bound(Fixed::of_int(2), z, 2_000_000, 500_000);
    lemma_times_bound(Fixed::of_int(2) * z, one + t * e3, 1_000_000, 1_100_000);
}

/// A number below `2 * 2^n` has a logarithm below `1.1` and `n` logarithms of two.
proof fn lemma_logarithm_bound(u: int, n: nat)
    requires
        u < 2_000_000 * pow2(n),
        n <= 64,
    ensures
        logarithm_of(u).units <= 1_100_000 + 693_147 * n,
    decreases
            if u >= 2_000_000 {
                u
            } else if u < 1_000_000 {
                1_000_000 - u
            } else {
                0
            },
{
    lemma_decimals();
    lemma2_to64();
    assert(pow2(0) == 1);
    if u <= 0 {
    } else if u >= 2_000_000 {
        assert(n > 0);
        let m = (n - 1) as nat;
        lemma_pow2_adds(1, m);
        assert(pow2(n) == 2 * pow2(m));
        lemma_logarithm_bound(u / 2, m);
    } else if u < 1_000_000 {
        lemma_logarithm_bound(2 * u, 0);
    } else {
        lemma_logarithm_series_bound(Fixed { units: u as i64 });
    }
}

/// Forty channels for each octave make fewer than three thousand.
proof fn lemma_channel_number(q: Request<Fixed>)
    requires
        q.channels_in_octave == Fixed::of_int(40),
    ensures
        1 <= q.channels() <= 3000,
{
    let x = (q.f0_ceil * Fixed::of_decimal(11, 1)) / (q.f0_floor * Fixed::of_decimal(9, 1));
    let l = x.logarithm();
    lemma2_to64();
    lemma_logarithm_bound(x.units as int, 64);
    let two = Fixed::of_decimal(69314718055994529, 17);
    assert(two.units == 693_147) by {
        reveal_with_fuel(pow, 18);
        assert(pow(10, 17) == 100_000_000_000_000_000);
        assert(cut_quotient(69314718055994529000000, 100_000_000_000_000_000) == 693_147);
    }
    let octaves = l / two;
    assert(octaves.units <= 66_000_000) by {
        lemma_cut_quotient_ordered(
            l.units * 1_000_000,
            45_461_408_000_000,
            two.units as int,
        );
        assert(cut_quotient(45_461_408_000_000, 693_147) <= 66_000_000);
    }
    let forty = Fixed::of_int(40);
    assert(forty.units == 40_000_000);
    assert(octaves.units * forty.units == octaves.units * 40_000_000);
    assert((octaves * forty).units <= 2_640_000_000);
}

/// No period counts as one millisecond: the small number that tells is zero.
proof fn lemma_no_unit_period(period: Fixed)
    ensures
        !unit_period(period),
{
    reveal_with_fuel(pow, 13);
    assert(pow(10, 12) == 1_000_000_000_000);
    assert(cut_quotient(1_000_000, 1_000_000_000_000) == 0);
    assert(safe_guard::<Fixed>().units == 0);
}

/// What counts as an ordinary recording: a rate up to a million, up to a billion
/// samples that last up to two million seconds, a floor from one hertz up to a
/// million, and frames at least one millisecond apart.
pub open spec fn ordinary_recording(x_length: int, fs: int, option: HarvestOption<Fixed>) -> bool {
    &&& 1 <= fs <= 1_000_000
    &&& 1 <= x_length <= 1_000_000_000
    &&& x_length <= 2_000_000 * fs
    &&& 1_000_000 <= option.f0_floor.units <= 1_000_000_000_000
    &&& 1_000_000 <= option.frame_period.units
}

proof fn lemma_frame_number_bound(x_length: int, fs: int, period: Fixed)
    requires
        1 <= fs <= 1_000_000,
        1 <= x_length <= 2_000_000 * fs,
        1_000_000 <= period.units,
    ensures
        frame_number(fs, x_length, period) <= 2_000_000_001,
{
    let m1 = Fixed::of_int(1000) * Fixed::of_int(x_length);
    assert(Fixed::of_int(1000).units * Fixed::of_int(x_length).units == 1_000_000_000
        * Fixed::of_int(x_length).units);
    assert(0 <= m1.units <= 1_000_000_000 * x_length);
    let m2 = m1 / Fixed::of_int(fs);
    lemma_whole_divisor(m1, fs);
    assert(m2.units <= 2_000_000_000_000_000) by (nonlinear_arith)
        requires
            fs * m2.units <= 1_000_000_000 * x_length,
            x_length <= 2_000_000 * fs,
            1 <= fs,
    ;
    let n = m2.units * 1_000_000;
    vstd::arithmetic::div_mod::lemma_div_pos_is_pos(n, period.units as int);
    vstd::arithmetic::div_mod::lemma_div_is_ordered_by_denominator(
        n,
        1_000_000,
        period.units as int,
    );
    assert((m2 / period).units <= m2.units);
}

proof fn lemma_margin_bound(q: Request<Fixed>)
    requires
        1 <= q.fs <= 1_000_000,
        1_000_000 <= q.f0_floor.units,
        q.channels_in_octave == Fixed::of_int(40),
    ensures
        margin::<Fixed>(q.fs as int, q.ratio(), q.lowest()) <= 3_000_000,
{
    lemma_decimals();
    lemma_rate(q.fs as int, q.ratio());
    let fs = reduced_rate::<Fixed>(q.fs as int, q.ratio());
    let low = q.f0_floor * Fixed::of_decimal(9, 1);
    assert(q.f0_floor.units * Fixed::of_decimal(9, 1).units == q.f0_floor.units * 900_000);
    assert(900_000 <= low.units);
    let first = (Fixed::of_int(0) + Fixed::of_int(1)) / q.channels_in_octave;
    assert(0 <= first.units) by {
        lemma_cut_quotient_ordered(0, 1_000_000_000_000, q.channels_in_octave.units as int);
    }
    lemma_powers_ordered(first, first);
    let p = first.power_of_two();
    let lowest = q.lowest();
    assert(900_000 <= lowest.units) by {
        lemma_product_ordered(900_000, low.units as int, 1_000_000, p.units as int);
        lemma_cut_quotient_ordered(900_000_000_000, low.units * p.units, 1_000_000);
        assert(cut_quotient(900_000_000_000, 1_000_000) == 900_000);
    }
    let w = Fixed::of_int(2) * fs;
    assert(Fixed::of_int(2).units * fs.units == 2_000_000 * fs.units);
    assert(w.units == 2 * fs.units);
    let n = w.units * 1_000_000;
    vstd::arithmetic::div_mod::lemma_div_pos_is_pos(n, lowest.units as int);
    vstd::arithmetic::div_mod::lemma_div_is_ordered_by_denominator(
        n,
        900_000,
        lowest.units as int,
    );
}

proof fn lemma_window_bound(fs: Fixed, floor: Fixed)
    requires
        0 <= fs.units <= 1_000_000_000_000,
        1_000_000 <= floor.units,
    ensures
        0 < window_length(fs, floor) <= 3_000_003,
{
    lemma_decimals();
    let w = Fixed::of_decimal(15, 1) * fs;
    assert(Fixed::of_decimal(15, 1).units * fs.units == 1_500_000 * fs.units);
    assert(0 <= w.units <= 1_500_000_000_000);
    let n = w.units * 1_000_000;
    vstd::arithmetic::div_mod::lemma_div_pos_is_pos(n, floor.units as int);
    vstd::arithmetic::div_mod::lemma_div_is_ordered_by_denominator(
        n,
        1_000_000,
        floor.units as int,
    );
    assert(0 <= (w / floor).units <= w.units);
}

/// Law: for an ordinary recording in fixed-point numbers all lengths are in range,
/// and the window for the floor is.
pub proof fn law_fixed_recordings_are_possible(
    x: Seq<Fixed>,
    fs: i32,
    option: HarvestOption<Fixed>,
)
    requires
        ordinary_recording(x.len() as int, fs as int, option),
    ensures
        possible(x, fs, option),
        refines_down_to_floor(request_for(x.len() as usize, fs, option)),
{
    let q = request_for(x.len() as usize, fs, option);
    let n = x.len() as int;
    assert(q.x_length == n);
    lemma_no_unit_period(option.frame_period);
    lemma_frame_number_bound(n, fs as int, Fixed::of_int(1));
    lemma_frame_number_bound(n, fs as int, option.frame_period);
    lemma_channel_number(q);
    lemma_lead(q.ratio());
    lemma_reduced_length(n, q.ratio());
    lemma_margin_bound(q);
    lemma_rate(fs as int, q.ratio());
    lemma_window_bound(reduced_rate::<Fixed>(fs as int, q.ratio()), option.f0_floor);
}

/// Law: an estimate in fixed-point numbers can be had, if all lengths are in range, the
/// window for the floor stays in range and the floor of three thousand channels can be
/// added up.
pub proof fn law_fixed_estimates_can_be_had<F, G>(
    x: Seq<Fixed>,
    fs: i32,
    option: HarvestOption<Fixed>,
    forward: F,
    inverse: G,
) where F: Fn(Vec<Fixed>) -> Vec<Complex<Fixed>>, G: Fn(Vec<Complex<Fixed>>, usize) -> Vec<Fixed>
    requires
        possible(x, fs, option),
        refines_down_to_floor(request_for(x.len() as usize, fs, option)),
        3000 * option.f0_floor.units <= i64::MAX,
    ensures
        estimable(x, fs, option, forward, inverse),
{
    let q = request_for(x.len() as usize, fs, option);
    let floor = q.f0_floor.units as int;
    lemma_channel_number(q);
    lemma_product_ordered(q.channels(), 3000, floor, floor);
    assert forall|a: Analysis<Fixed>| a.request == q && #[trigger] a.analyses(x) implies workable(
        a,
        forward,
        inverse,
    ) by {
        law_fixed_analysis_is_workable(a, forward, inverse);
    }
}

/// Law: an estimate of an ordinary recording in fixed-point numbers can be had.
pub proof fn law_fixed_recordings_are_estimable<F, G>(
    x: Seq<Fixed>,
    fs: i32,
    option: HarvestOption<Fixed>,
    forward: F,
    inverse: G,
) where F: Fn(Vec<Fixed>) -> Vec<Complex<Fixed>>, G: Fn(Vec<Complex<Fixed>>, usize) -> Vec<Fixed>
    requires
        ordinary_recording(x.len() as int, fs as int, option),
    ensures
        estimable(x, fs, option, forward, inverse),
{
    law_fixed_recordings_are_possible(x, fs, option);
    law_fixed_estimates_can_be_had(x, fs, option, forward, inverse);
}

/// Law: the estimate of an ordinary recording in fixed-point numbers does not fail, if
/// the transforms are full and the steps walk over all channels and all candidates.
pub proof fn law_fixed_recordings_succeed<L, R, F, G>(
    x: Seq<Fixed>,
    fs: i32,
    option: HarvestOption<Fixed>,
    listen: L,
    refine: R,
    forward: F,
    inverse: G,
    e: Fault,
) where
    L: Fn(&Analysis<Fixed>) -> Heard<Fixed>,
    R: Fn(&Analysis<Fixed>, Vec<Vec<Fixed>>, usize) -> Refined<Fixed>,
    F: Fn(Vec<Fixed>) -> Vec<Complex<Fixed>>,
    G: Fn(Vec<Complex<Fixed>>, usize) -> Vec<Fixed>,

    requires
        ordinary_recording(x.len() as int, fs as int, option),
        full_transforms(forward, inverse),
        steps_walk(listen, refine, forward, inverse),
    ensures
        !fails(x, fs, option, listen, refine, e),
{
    law_fixed_recordings_are_estimable(x, fs, option, forward, inverse);
    law_estimate_succeeds(x, fs, option, listen, refine, forward, inverse, e);
}

/// Law: every array of one or two dimensions that holds ordinary recordings in
/// fixed-point numbers has its estimate, if the transforms are full and the steps walk
/// over all channels and all candidates; and it is the one that the transforms give.
pub proof fn law_fixed_arrays_are_estimated<L, R, F, G>(
    shape: Seq<usize>,
    flat: Seq<Fixed>,
    fs: i32,
    option: HarvestOption<Fixed>,
    listen: L,
    refine: R,
    forward: F,
    inverse: G,
    t: Transforms<Fixed>,
    r: Result<ArrayEstimate<Fixed>, ArrayFault>,
) where
    L: Fn(&Analysis<Fixed>) -> Heard<Fixed>,
    R: Fn(&Analysis<Fixed>, Vec<Vec<Fixed>>, usize) -> Refined<Fixed>,
    F: Fn(Vec<Fixed>) -> Vec<Complex<Fixed>>,
    G: Fn(Vec<Complex<Fixed>>, usize) -> Vec<Fixed>,

    requires
        shape.len() == 1 || shape.len() == 2,
        fills(shape, flat.len()),
        ordinary_recording(shape.last() as int, fs as int, option),
        full_transforms(forward, inverse),
        computes(forward, inverse, t),
        steps_walk(listen, refine, forward, inverse),
        array_outcome(shape, flat, fs, option, listen, refine, r),
    ensures
        array_estimated_by(shape, flat, fs, option, t, r),
{
    if shape.len() == 1 {
        law_fixed_recordings_are_estimable(flat, fs, option, forward, inverse);
    } else {
        let seq = shape[1] as int;
        assert forall|i: int| 0 <= i < shape[0] implies estimable(
            #[trigger] row(flat, seq, i),
            fs,
            option,
            forward,
            inverse,
        ) by {
            lemma_row_length(flat, shape[0] as int, seq, i);
            law_fixed_recordings_are_estimable(row(flat, seq, i), fs, option, forward, inverse);
        }
    }
    law_arrays_are_estimated(
        shape,
        flat,
        fs,
        option,
        listen,
        refine,
        forward,
        inverse,
        t,
        r,
    );
}

/// Law: in fixed-point numbers, the frames of any period take their frequency from
/// the estimate with frames one millisecond apart, at the frame nearest to their
/// time.
pub proof fn law_fixed_coarser_frames_pick_from_finer<L, R, M, S>(
    x: Seq<Fixed>,
    fs: i32,
    option: HarvestOption<Fixed>,
    fine: HarvestOption<Fixed>,
    listen: L,
    refine: R,
    other_listen: M,
    other_refine: S,
    t: Transforms<Fixed>,
    r: (Seq<Fixed>, Seq<Fixed>),
    base: (Seq<Fixed>, Seq<Fixed>),
    i: int,
) where
    L: Fn(&Analysis<Fixed>) -> Heard<Fixed>,
    R: Fn(&Analysis<Fixed>, Vec<Vec<Fixed>>, usize) -> Refined<Fixed>,
    M: Fn(&Analysis<Fixed>) -> Heard<Fixed>,
    S: Fn(&Analysis<Fixed>, Vec<Vec<Fixed>>, usize) -> Refined<Fixed>,

    requires
        steps_by(listen, refine, t),
        steps_by(other_listen, other_refine, t),
        fine.f0_floor == option.f0_floor,
        fine.f0_ceil == option.f0_ceil,
        fine.frame_period == Fixed::of_int(1),
        estimates(x, fs, option, listen, refine, r),
        estimates(x, fs, fine, other_listen, other_refine, base),
        0 <= i < r.1.len(),
    ensures
        r.1[i] == base.1[nearest_frame(r.0[i], base.1.len() as int)],
{
    let q = request_for(x.len() as usize, fs, fine);
    let g = choose|g: Seq<Fixed>| #[trigger] leads_to(x, q, other_listen, other_refine, g);
    let a = law_contour_follows(x, q, other_listen, other_refine, t, g);
    law_fixed_milliseconds_come_back(q.frames() as nat);
    lemma_no_unit_period(option.frame_period);
    law_coarser_frames_pick_from_finer(
        x,
        fs,
        option,
        fine,
        listen,
        refine,
        other_listen,
        other_refine,
        t,
        r,
        base,
        i,
    );
}

} // verus!
