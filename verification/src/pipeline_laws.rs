//! What the stages of an estimate hand to each other: the options reach every stage,
//! frames are cut at their own time, and channels report what lies within the bounds.
use crate::analysis::{Analysis, Fault, inverts, transforms};
use crate::basics::{grid, rounded, zero};
use crate::crossing::{crossing_lists, mean_of_four, sampled};
use crate::estimator::{Heard, Refined, collected, estimates, leads_to, request_for};
use crate::fixed::Fixed;
use crate::harvest::{
    HarvestOption, boundary, final_contour, frame_number, output_contour, output_times,
};
use crate::refine::{
    diff_frame, diff_samples, gated, half_window, main_frame, main_sample, manageable,
    main_window_for, mean_f0, window_length,
};
use crate::scalar::Scalar;
use crate::spectrum::{Complex, band_pass, filtered, products};
use crate::waveform::waveform;
use vstd::prelude::*;

verus! {

/// Law: the analysis that an estimate is made from has the floor and the ceiling of the
/// options and the length and the rate of the signal; its frames are one millisecond
/// apart, and it has forty channels for each octave.
pub proof fn law_request_follows_the_options<T: Scalar>(
    x_length: usize,
    fs: i32,
    option: HarvestOption<T>,
)
    ensures
        ({
            let q = request_for(x_length, fs, option);
            &&& q.f0_floor == option.f0_floor
            &&& q.f0_ceil == option.f0_ceil
            &&& q.x_length == x_length
            &&& q.fs == fs
            &&& q.frame_period == 1
            &&& q.channels_in_octave == T::of_int(40)
            &&& 1 <= q.ratio() <= 12
        }),
{
}

/// Law: in fixed-point numbers the rate is reduced by the whole number that brings it
/// nearest to 8000, from 1 to 12.
pub proof fn law_fixed_rate_comes_near_8000(x_length: usize, fs: i32, option: HarvestOption<Fixed>)
    requires
        0 < fs,
    ensures
        ({
            let ratio = request_for(x_length, fs, option).ratio();
            &&& 4000 <= fs < 100_000 ==> -4000 <= fs - 8000 * ratio <= 4000
            &&& fs < 4000 ==> ratio == 1
            &&& fs >= 100_000 ==> ratio == 12
        }),
{
    let speed = request_for(x_length, fs, option).speed;
    let q = Fixed::of_int(fs as int) / Fixed::of_int(8000);
    assert(Fixed::of_int(fs as int).units == fs * 1_000_000);
    assert(Fixed::of_int(8000).units == 8_000_000_000);
    assert(q.units == (fs * 1_000_000 * 1_000_000) / 8_000_000_000);
    assert(q.units == fs * 125);
    crate::fixed::lemma_half();
    assert(rounded(q) == (fs * 125 + 500_000) / 1_000_000);
}

/// Law: whatever an estimate gives was worked out from analyses that follow the options:
/// the steps are handed an analysis of the signal itself, within the floor and the
/// ceiling asked for, with frame `k` at `k` milliseconds and the channels rising from
/// the floor. What the first step hears gives the candidates that the second refines,
/// and the contour drawn along these is what the frames asked for are taken from.
pub proof fn law_steps_follow_the_options<T: Scalar, L, R>(
    x: Seq<T>,
    fs: i32,
    option: HarvestOption<T>,
    listen: L,
    refine: R,
    r: (Seq<T>, Seq<T>),
) -> (w: (Analysis<T>, Vec<Vec<T>>, Vec<Vec<T>>, usize, (Vec<Vec<T>>, Vec<Vec<T>>))) where
    L: Fn(&Analysis<T>) -> Heard<T>,
    R: Fn(&Analysis<T>, Vec<Vec<T>>, usize) -> Refined<T>,

    requires
        estimates(x, fs, option, listen, refine, r),
        x.len() <= usize::MAX,
    ensures
        ({
            let (a, raw, c, n, refined) = w;
            &&& call_ensures(listen, (&a,), Ok::<Vec<Vec<T>>, Fault>(raw))
            &&& call_ensures(
                refine,
                (&a, c, n),
                Ok::<(Vec<Vec<T>>, Vec<Vec<T>>), Fault>(refined),
            )
            &&& a.analyses(x)
            &&& a.request.f0_floor == option.f0_floor
            &&& a.request.f0_ceil == option.f0_ceil
            &&& a.request.x_length == x.len()
            &&& a.request.fs == fs
            &&& a.y@ == waveform(
                x,
                a.plan.y_length as int,
                a.plan.fft_size as int,
                a.plan.decimation_ratio as int,
            )
            &&& forall|i: int|
                0 <= i < a.channels() ==> #[trigger] a.plan.boundary_f0_list@[i] == boundary(
                    option.f0_floor,
                    T::of_int(40),
                    i,
                )
            &&& grid(c@) == a.candidate_grid(grid(raw@))
            &&& n == 7 * a.own_number(grid(raw@))
            &&& r.1 == output_contour(
                final_contour(
                    grid(refined.0@),
                    grid(refined.1@),
                    a.plan.f0_length as nat,
                    n as nat,
                ),
                frame_number(fs as int, x.len() as int, option.frame_period) as nat,
                option.frame_period,
            )
            &&& forall|k: int|
                0 <= k < a.plan.f0_length ==> #[trigger] a.temporal_positions@[k] == (T::of_int(k)
                    * T::of_int(1)) / T::of_int(1000)
        }),
{
    let q = request_for(x.len() as usize, fs, option);
    let own = frame_number(fs as int, x.len() as int, option.frame_period) as nat;
    let basic = choose|basic: Seq<T>|
        {
            &&& #[trigger] leads_to(x, q, listen, refine, basic)
            &&& r.0 == output_times(basic.len(), own, option.frame_period)
            &&& r.1 == output_contour(basic, own, option.frame_period)
        };
    let (a, raw, c, n, p) = choose|
        a: Analysis<T>,
        raw: Vec<Vec<T>>,
        c: Vec<Vec<T>>,
        n: usize,
        p: (Vec<Vec<T>>, Vec<Vec<T>>),
    |
        {
            &&& a.request == q && a.analyses(x)
            &&& #[trigger] call_ensures(listen, (&a,), Ok::<Vec<Vec<T>>, Fault>(raw))
            &&& #[trigger] call_ensures(
                refine,
                (&a, c, n),
                Ok::<(Vec<Vec<T>>, Vec<Vec<T>>), Fault>(p),
            )
            &&& collected(a, raw, c, n)
            &&& basic == final_contour(grid(p.0@), grid(p.1@), a.plan.f0_length as nat, n as nat)
        };
    (a, raw, c, n, p)
}

/// The sample of `x` at `index`, counted from 1; the first before the signal, the last
/// behind it.
pub open spec fn sample_at<T>(x: Seq<T>, index: int) -> T {
    if index < 1 {
        x[0]
    } else if index > x.len() {
        x[x.len() - 1]
    } else {
        x[index - 1]
    }
}

/// The index, counted from 1, of the first sample under a window of `2 * h + 1` samples
/// around the time `position`.
pub open spec fn first_index<T: Scalar>(fs: T, position: T, h: int) -> int {
    rounded(
        (position + (-T::of_int(h) + T::of_int(0)) / fs) * fs + T::of_decimal(1, 3),
    ) as int
}

/// `main` and `diff` are cut out of `x` around the time `position`: sample by sample the
/// signal from half a window before it on, times the window for that same sample, and
/// times the negated slope of that window; then zeros.
pub open spec fn cut_around<T: Scalar>(
    x: Seq<T>,
    fs: T,
    position: T,
    f0: T,
    main: Seq<T>,
    diff: Seq<T>,
) -> bool {
    let h = half_window(fs, f0);
    let first = first_index(fs, position, h);
    let length = T::of_int(2 * h + 1) / fs;
    let window = |i: int| main_sample(position, first + i, fs, length);
    &&& 2 * h + 1 <= main.len()
    &&& main.len() == diff.len()
    &&& forall|i: int|
        0 <= i < 2 * h + 1 ==> #[trigger] main[i] == sample_at(x, first + i) * window(i)
    &&& forall|i: int|
        0 < i < 2 * h ==> #[trigger] diff[i] == sample_at(x, first + i) * (-(window(i + 1) - window(
            i - 1,
        )) / T::of_int(2))
    &&& h > 0 ==> diff[0] == sample_at(x, first) * (-window(1) / T::of_int(2)) && diff[2 * h]
        == sample_at(x, first + 2 * h) * (window(2 * h - 1) / T::of_int(2))
    &&& forall|i: int|
        #![trigger main[i]]
        #![trigger diff[i]]
        2 * h + 1 <= i < main.len() ==> main[i] == zero::<T>() && diff[i] == zero::<T>()
}

/// Law: the two frames of a candidate are cut out of the signal around its time.
pub proof fn law_frames_are_cut_around_the_position<T: Scalar>(
    x: Seq<T>,
    fs: T,
    position: T,
    f0: T,
)
    requires
        0 < x.len(),
        manageable(fs, position, f0),
    ensures
        cut_around(
            x,
            fs,
            position,
            f0,
            main_frame(x, fs, position, f0),
            diff_frame(x, fs, position, f0),
        ),
{
    crate::refine::law_frames_fill_the_transform(x, fs, position, f0);
    let h = half_window(fs, f0);
    let first = first_index(fs, position, h);
    let n = 2 * h + 1;
    let length = T::of_int(n) / fs;
    let window = |i: int| main_sample(position, first + i, fs, length);
    let w = main_window_for(fs, position, f0);
    let main = main_frame(x, fs, position, f0);
    let diff = diff_frame(x, fs, position, f0);
    assert(window_length(fs, f0) == n);
    assert(w.len() == n);
    assert forall|i: int| 0 <= i < n implies #[trigger] w[i] == window(i) by {}
    assert forall|i: int| 0 <= i < n implies #[trigger] main[i] == sample_at(x, first + i) * window(
        i,
    ) by {
        assert(w[i] == window(i));
    }
    let s = diff_samples(w, w);
    assert forall|i: int| 0 < i < 2 * h implies #[trigger] diff[i] == sample_at(x, first + i) * (-(
    window(i + 1) - window(i - 1)) / T::of_int(2)) by {
        assert(w[i + 1] == window(i + 1) && w[i - 1] == window(i - 1));
        assert(s[i] == -(w[i + 1] - w[i - 1]) / T::of_int(2));
    }
    if h > 0 {
        assert(w[1] == window(1) && w[2 * h - 1] == window(2 * h - 1));
        assert(s[0] == -w[1] / T::of_int(2));
        assert(s[2 * h] == w[2 * h - 1] / T::of_int(2));
    }
}

/// Law: frames depend on the samples under the window alone: signals that agree there
/// have the same frames.
pub proof fn law_frames_depend_on_samples_near_the_position<T: Scalar>(
    x: Seq<T>,
    y: Seq<T>,
    fs: T,
    position: T,
    f0: T,
)
    requires
        0 < x.len(),
        x.len() == y.len(),
        manageable(fs, position, f0),
        forall|i: int|
            0 <= i < window_length(fs, f0) ==> #[trigger] sample_at(
                x,
                first_index(fs, position, half_window(fs, f0)) + i,
            ) == sample_at(y, first_index(fs, position, half_window(fs, f0)) + i),
    ensures
        main_frame(x, fs, position, f0) == main_frame(y, fs, position, f0),
        diff_frame(x, fs, position, f0) == diff_frame(y, fs, position, f0),
{
    let first = first_index(fs, position, half_window(fs, f0));
    let m = main_frame(x, fs, position, f0);
    let d = diff_frame(x, fs, position, f0);
    assert forall|i: int| 0 <= i < m.len() implies #[trigger] m[i] == main_frame(
        y,
        fs,
        position,
        f0,
    )[i] by {
        if i < window_length(fs, f0) {
            assert(sample_at(x, first + i) == sample_at(y, first + i));
        }
    }
    assert forall|i: int| 0 <= i < d.len() implies #[trigger] d[i] == diff_frame(
        y,
        fs,
        position,
        f0,
    )[i] by {
        if i < window_length(fs, f0) {
            assert(sample_at(x, first + i) == sample_at(y, first + i));
        }
    }
    assert(m =~= main_frame(y, fs, position, f0));
    assert(d =~= diff_frame(y, fs, position, f0));
}

/// Law: a signal delayed by `m` samples has, at a time `m` samples later, the frames that
/// it had before: the samples under the window move with the position.
pub proof fn law_frames_move_with_the_signal<T: Scalar>(
    x: Seq<T>,
    y: Seq<T>,
    fs: T,
    position: T,
    later: T,
    f0: T,
    m: int,
)
    requires
        0 < x.len(),
        0 < y.len(),
        manageable(fs, position, f0),
        manageable(fs, later, f0),
        first_index(fs, later, half_window(fs, f0)) == first_index(
            fs,
            position,
            half_window(fs, f0),
        ) + m,
        forall|j: int, length: T|
            main_sample(later, j + m, fs, length) == #[trigger] main_sample(
                position,
                j,
                fs,
                length,
            ),
        forall|i: int|
            0 <= i < window_length(fs, f0) ==> sample_at(
                y,
                first_index(fs, position, half_window(fs, f0)) + m + i,
            ) == #[trigger] sample_at(x, first_index(fs, position, half_window(fs, f0)) + i),
    ensures
        main_frame(y, fs, later, f0) == main_frame(x, fs, position, f0),
        diff_frame(y, fs, later, f0) == diff_frame(x, fs, position, f0),
{
    let h = half_window(fs, f0);
    let first = first_index(fs, position, h);
    let w = main_window_for(fs, position, f0);
    let v = main_window_for(fs, later, f0);
    assert forall|i: int| 0 <= i < w.len() implies #[trigger] v[i] == w[i] by {
        let length = T::of_int(window_length(fs, f0)) / fs;
        assert(w[i] == main_sample(position, first + i, fs, length));
        assert(v[i] == main_sample(later, first + m + i, fs, length));
        assert(first + i + m == first + m + i);
    }
    assert(v =~= w);
    let a = main_frame(y, fs, later, f0);
    let b = main_frame(x, fs, position, f0);
    assert forall|i: int| 0 <= i < a.len() implies #[trigger] a[i] == b[i] by {
        if i < window_length(fs, f0) {
            assert(sample_at(x, first + i) == sample_at(y, first + m + i));
        }
    }
    assert(a =~= b);
    let c = diff_frame(y, fs, later, f0);
    let d = diff_frame(x, fs, position, f0);
    assert forall|i: int| 0 <= i < c.len() implies #[trigger] c[i] == d[i] by {
        if i < window_length(fs, f0) {
            assert(sample_at(x, first + i) == sample_at(y, first + m + i));
        }
    }
    assert(c =~= d);
}

/// Law: a candidate of frame `k` is refined by the spectra of two frames that are cut
/// out of the waveform around the time of frame `k`, and what they give is held against
/// the floor and the ceiling of the request.
pub proof fn law_candidates_are_refined_at_their_frame<T: Scalar, F>(
    a: Analysis<T>,
    k: int,
    f0: T,
    forward: F,
    r: (T, T),
) -> (w: (Seq<T>, Seq<T>, Seq<Complex<T>>, Seq<Complex<T>>)) where
    F: Fn(Vec<T>) -> Vec<Complex<T>>,

    requires
        a.well_formed(),
        0 <= k < a.plan.f0_length,
        a.refinable(k, f0),
        !(f0 <= zero::<T>()),
        a.refines(k, f0, forward, r),
    ensures
        ({
            let (main, diff, main_spectrum, diff_spectrum) = w;
            let position = (T::of_int(k) * T::of_int(a.request.frame_period as int)) / T::of_int(
                1000,
            );
            let found = mean_f0(
                main_spectrum,
                diff_spectrum,
                main.len() as int,
                a.plan.actual_fs,
                f0,
            );
            &&& cut_around(
                a.y@.take(a.plan.y_length as int),
                a.plan.actual_fs,
                position,
                f0,
                main,
                diff,
            )
            &&& transforms(forward, main, main_spectrum)
            &&& transforms(forward, diff, diff_spectrum)
            &&& if found.0 < a.request.f0_floor || a.request.f0_ceil < found.0 || found.1
                < T::of_decimal(25, 1) {
                r == (zero::<T>(), zero::<T>())
            } else {
                r == found
            }
        }),
{
    let fs = a.plan.actual_fs;
    let t = a.temporal_positions@[k];
    let main = main_frame(a.samples(), fs, t, f0);
    let diff = diff_frame(a.samples(), fs, t, f0);
    crate::harvest::law_plan_admits_waveform(a.request, a.plan);
    law_frames_are_cut_around_the_position(a.samples(), fs, t, f0);
    crate::refine::law_frames_fill_the_transform(a.samples(), fs, t, f0);
    let (m, d) = choose|m: Seq<Complex<T>>, d: Seq<Complex<T>>|
        {
            &&& #[trigger] transforms(forward, main, m)
            &&& #[trigger] transforms(forward, diff, d)
            &&& r == gated(
                mean_f0(m, d, main.len() as int, fs, f0),
                a.request.f0_floor,
                a.request.f0_ceil,
            )
        };
    (main, diff, m, d)
}

/// Law: a channel reports the mean of its four contours wherever each has at least three
/// intervals and the mean lies from the floor up to the ceiling of the request and
/// within a tenth of the frequency of the channel; everywhere else it reports zero.
pub proof fn law_channel_reports_what_lies_within_bounds<T: Scalar>(
    a: Analysis<T>,
    i: int,
    time: Seq<T>,
    k: int,
)
    requires
        a.well_formed(),
        0 <= i < a.channels(),
        0 <= k < a.plan.f0_length,
    ensures
        ({
            let b = a.plan.boundary_f0_list@[i];
            let n = a.plan.y_length as int;
            let fs = a.plan.actual_fs;
            let frames = a.plan.f0_length as nat;
            let z = crossing_lists(filtered(time, b, a.plan.fft_size as nat, fs, n), n, fs);
            let at = a.temporal_positions@;
            let mean = mean_of_four(
                sampled(z.negative, at, frames)[k],
                sampled(z.positive, at, frames)[k],
                sampled(z.peak, at, frames)[k],
                sampled(z.dip, at, frames)[k],
            );
            let (low, high) = (b * T::of_decimal(9, 1), b * T::of_decimal(11, 1));
            let reported = 3 <= z.negative.number && 3 <= z.positive.number && 3 <= z.peak.number
                && 3 <= z.dip.number && a.request.f0_floor <= mean && mean <= a.request.f0_ceil
                && low <= mean && mean <= high;
            a.channel_contour(i, time)[k] == if reported {
                mean
            } else {
                zero::<T>()
            }
        }),
{
}

/// Law: every channel is heard in the spectrum of the same waveform, through the filter
/// of its own frequency: the two spectra are multiplied entry by entry as complex
/// numbers, and the contour is drawn from what the inverse transform makes of the product.
pub proof fn law_every_channel_is_heard_through_its_filter<T: Scalar, F, G>(
    a: Analysis<T>,
    forward: F,
    inverse: G,
    raw: Vec<Vec<T>>,
    i: int,
) -> (w: (Seq<Complex<T>>, Seq<Complex<T>>, Seq<Complex<T>>, Seq<T>)) where
    F: Fn(Vec<T>) -> Vec<Complex<T>>,
    G: Fn(Vec<Complex<T>>, usize) -> Vec<T>,

    requires
        a.well_formed(),
        a.hearing(forward, inverse, Ok(raw)),
        0 <= i < a.channels(),
    ensures
        ({
            let (s, h, p, time) = w;
            let b = boundary(a.request.f0_floor, a.request.channels_in_octave, i);
            &&& raw@.len() == a.channels()
            &&& transforms(forward, a.y@, s)
            &&& transforms(
                forward,
                band_pass(b, a.plan.fft_size as nat, a.plan.actual_fs),
                h,
            )
            &&& inverts(inverse, p, a.plan.fft_size, time)
            &&& p.len() == s.len()
            &&& forall|j: int|
                0 <= j < p.len() ==> {
                    &&& (#[trigger] p[j]).re == s[j].re * h[j].re - s[j].im * h[j].im
                    &&& p[j].im == s[j].re * h[j].im + s[j].im * h[j].re
                }
            &&& raw@[i]@ == a.channel_contour(i, time)
        }),
{
    let all = grid(raw@);
    let s = choose|s: Seq<Complex<T>>|
        {
            &&& #[trigger] transforms(forward, a.y@, s)
            &&& all.len() == a.channels()
            &&& forall|i: int|
                0 <= i < all.len() ==> a.hears(i, s, forward, inverse, #[trigger] all[i])
        };
    assert(a.hears(i, s, forward, inverse, all[i]));
    let (h, time) = choose|h: Seq<Complex<T>>, time: Seq<T>|
        {
            &&& #[trigger] transforms(forward, a.channel_filter(i), h)
            &&& #[trigger] inverts(inverse, products(s, h), a.plan.fft_size, time)
            &&& all[i] == a.channel_contour(i, time)
        };
    (s, h, products(s, h), time)
}

/// Law: of every frame the first `number` candidates are refined, each by itself; the
/// others stay, without a score, and a candidate that is not positive becomes zero.
pub proof fn law_every_candidate_is_refined<T: Scalar, F>(
    a: Analysis<T>,
    candidates: Seq<Seq<T>>,
    number: int,
    forward: F,
    r: (Vec<Vec<T>>, Vec<Vec<T>>),
    k: int,
    j: int,
) where F: Fn(Vec<T>) -> Vec<Complex<T>>
    requires
        a.refining(candidates, number, forward, Ok(r)),
        0 <= k < candidates.len(),
        0 <= j < candidates[k].len(),
    ensures
        r.0@.len() == candidates.len(),
        r.1@.len() == candidates.len(),
        r.0@[k]@.len() == candidates[k].len(),
        r.1@[k]@.len() == candidates[k].len(),
        j < number ==> a.refines(k, candidates[k][j], forward, (r.0@[k]@[j], r.1@[k]@[j])),
        j < number && candidates[k][j] <= zero::<T>() ==> r.0@[k]@[j] == zero::<T>() && r.1@[k]@[j]
            == zero::<T>(),
        number <= j ==> r.0@[k]@[j] == candidates[k][j] && r.1@[k]@[j] == zero::<T>(),
{
    let (f, s) = (grid(r.0@), grid(r.1@));
    assert(a.refines_all(candidates, number, forward, (f, s)));
    assert(f[k] == r.0@[k]@ && s[k] == r.1@[k]@);
    assert(a.refines_frame(k, candidates[k], number, forward, (f[k], s[k])));
    assert(f[k][j] == r.0@[k]@[j]);
}

} // verus!
