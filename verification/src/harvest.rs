//! The estimator as a whole: what is computed before, between and after the
//! transforms.
use crate::basics::{
    at_least_zero, clip_below_zero, filled, filled_rows, get_suitable_fft_size, grid, guard,
    is_least_power, matlab_round, my_max_i, my_min_i, nought, repeated, rounded, safe_guard, zero,
};
use crate::candidates::{
    detect_official_f0_candidates, detected, law_candidates_take_room, most_detected, overlapped,
    overlap_f0_candidates,
};
use crate::contour::{pruned, remove_unreliable_candidates};
use crate::merging::{evidence, fix_f0_contour, fixed_contour, law_fixed_contour_length};
use crate::scalar::{Scalar, ordered_numbers};
use crate::smoothing::{law_only_voiced_frames_are_smoothed, smooth_f0_contour, smoothed};
use crate::spectrum::{filter_length_half, half_length};
use crate::waveform::{lead, lemma_lead};
use vstd::prelude::*;

verus! {

/// What may be chosen: the range of frequencies, in hertz, and the distance of
/// frames, in milliseconds.
pub struct HarvestOption<T> {
    pub f0_floor: T,
    pub f0_ceil: T,
    pub frame_period: T,
}

impl<T: Scalar> Default for HarvestOption<T> {
    /// From 71 to 800 hertz, every five milliseconds.
    fn default() -> (r: Self)
        ensures
            r.f0_floor == T::of_int(71),
            r.f0_ceil == T::of_int(800),
            r.frame_period == T::of_int(5),
    {
        HarvestOption {
            f0_floor: T::from_int(71),
            f0_ceil: T::from_int(800),
            frame_period: T::from_int(5),
        }
    }
}

/// How many whole periods there are in `x_length` samples.
pub open spec fn whole_periods<T: Scalar>(fs: int, x_length: int, frame_period: T) -> int {
    (((T::of_int(1000) * T::of_int(x_length)) / T::of_int(fs)) / frame_period).as_usize() as int
}

/// How many frames there are for `x_length` samples.
pub open spec fn frame_number<T: Scalar>(fs: int, x_length: int, frame_period: T) -> int {
    whole_periods(fs, x_length, frame_period) + 1
}

/// How many frames there are for `x_length` samples at `fs` per second, one every
/// `frame_period` milliseconds.
pub fn get_samples_for_harvest<T: Scalar>(fs: i32, x_length: usize, frame_period: T) -> (n: usize)
    requires
        frame_number(fs as int, x_length as int, frame_period) <= usize::MAX,
    ensures
        n == frame_number(fs as int, x_length as int, frame_period),
{
    T::from_int(1000).times(T::from_int(x_length as i128)).over(T::from_int(fs as i128)).over(
        frame_period,
    ).to_usize() + 1
}

/// The time in milliseconds that `x_length` samples take.
pub open spec fn milliseconds<T: Scalar>(fs: int, x_length: int) -> T {
    (T::of_int(1000) * T::of_int(x_length)) / T::of_int(fs)
}

/// Law: for numbers that keep their order, and as far as they stay finite, there
/// is one frame for no sample, and never fewer for more samples.
pub proof fn law_frame_count_grows<T: Scalar>(fs: int, a: int, b: int, frame_period: T)
    requires
        ordered_numbers::<T>(),
        0 <= a <= b,
        zero::<T>() < T::of_int(fs) && T::of_int(fs).finite(),
        zero::<T>() < frame_period && frame_period.finite(),
        zero::<T>() < T::of_int(1000) && T::of_int(1000).finite(),
        forall|n: int|
            #![trigger T::of_int(n)]
            n == a || n == b ==> {
                &&& T::of_int(n).finite()
                &&& (T::of_int(1000) * T::of_int(n)).finite()
                &&& milliseconds::<T>(fs, n).finite()
            },
    ensures
        frame_number(fs, 0, frame_period) == 1,
        1 <= frame_number(fs, a, frame_period) <= frame_number(fs, b, frame_period),
{
    let k = T::of_int(1000);
    let d = T::of_int(fs);
    let x = T::of_int(a);
    let y = T::of_int(b);
    assert(x <= y);
    assert(k * x <= k * y);
    assert((k * x) / d <= (k * y) / d);
    assert(milliseconds::<T>(fs, a) / frame_period <= milliseconds::<T>(fs, b) / frame_period);
    assert(k * zero::<T>() == zero::<T>());
    assert(zero::<T>() / d == zero::<T>());
    assert(zero::<T>() / frame_period == zero::<T>());
}

/// The number of frames, nothing where it is out of range.
pub fn checked_samples_for_harvest<T: Scalar>(fs: i32, x_length: usize, frame_period: T) -> (n:
    Option<usize>)
    ensures
        match n {
            Some(k) => k == frame_number(fs as int, x_length as int, frame_period),
            None => frame_number(fs as int, x_length as int, frame_period) > usize::MAX,
        },
{
    let whole: usize = T::from_int(1000).times(T::from_int(x_length as i128)).over(
        T::from_int(fs as i128),
    ).over(frame_period).to_usize();
    if whole == usize::MAX {
        None
    } else {
        Some(get_samples_for_harvest(fs, x_length, frame_period))
    }
}

/// The number of channels: one, and so many for each octave of the range.
pub open spec fn extra_channels<T: Scalar>(floor: T, ceil: T, channels_in_octave: T) -> int {
    ((((ceil * T::of_decimal(11, 1)) / (floor * T::of_decimal(9, 1))).logarithm() / T::of_decimal(
        69314718055994529,
        17,
    )) * channels_in_octave).as_usize() as int
}

/// The centre frequency of channel `i`.
pub open spec fn boundary<T: Scalar>(floor: T, channels_in_octave: T, i: int) -> T {
    (floor * T::of_decimal(9, 1)) * ((T::of_int(i) + T::of_int(1))
        / channels_in_octave).power_of_two()
}

/// By how much the rate is reduced: `speed`, from 1 to 12.
pub open spec fn reduction(speed: int) -> int {
    if speed >= 12 {
        12
    } else if speed > 1 {
        speed
    } else {
        1
    }
}

/// How many samples are left of `x_length`.
pub open spec fn reduced_length(x_length: int, ratio: int) -> int {
    (x_length + ratio - 1) / ratio
}

/// The reduced rate.
pub open spec fn reduced_rate<T: Scalar>(fs: int, ratio: int) -> T {
    T::of_int(fs) / T::of_int(ratio)
}

/// Two periods of the lowest channel at the reduced rate.
pub open spec fn margin<T: Scalar>(fs: int, ratio: int, lowest: T) -> int {
    ((T::of_int(2) * reduced_rate::<T>(fs, ratio)) / lowest).as_usize() as int
}

/// How many candidates a frame may have before neighbours are added: a tenth of
/// the number of channels, rounded, and at least one.
pub open spec fn base_candidates(channels: int) -> int {
    if (channels + 5) / 10 > 1 {
        (channels + 5) / 10
    } else {
        1
    }
}

/// What an analysis is made from.
pub struct Request<T> {
    pub x_length: usize,
    pub fs: i32,
    /// In milliseconds.
    pub frame_period: i32,
    pub f0_floor: T,
    pub f0_ceil: T,
    pub channels_in_octave: T,
    pub speed: i32,
}

impl<T: Scalar> Request<T> {
    /// By how much the rate is reduced.
    pub open spec fn ratio(self) -> int {
        reduction(self.speed as int)
    }

    /// The number of channels.
    pub open spec fn channels(self) -> int {
        1 + extra_channels(self.f0_floor, self.f0_ceil, self.channels_in_octave)
    }

    /// The centre frequency of the lowest channel.
    pub open spec fn lowest(self) -> T {
        boundary(self.f0_floor, self.channels_in_octave, 0)
    }

    /// The least length of the transform.
    pub open spec fn room(self) -> int {
        reduced_length(self.x_length as int, self.ratio()) + 5 + 2 * margin(
            self.fs as int,
            self.ratio(),
            self.lowest(),
        )
    }

    /// The number of frames.
    pub open spec fn frames(self) -> int {
        frame_number(self.fs as int, self.x_length as int, T::of_int(self.frame_period as int))
    }

    /// Whether every length is within the range of its type, and there is a
    /// sample where the rate is to be reduced.
    pub open spec fn feasible(self) -> bool {
        &&& self.channels() <= usize::MAX - 5
        &&& self.ratio() == 1 || self.x_length > 0
        &&& self.x_length + 2 * lead(self.ratio()) + 18 + self.ratio() <= usize::MAX
        &&& reduced_length(self.x_length as int, self.ratio()) <= i32::MAX
        &&& self.room() <= usize::MAX / 2 + 1
        &&& self.frames() < i32::MAX - 100
    }
}

/// The sizes of an analysis and the frequencies of its channels.
pub struct Plan<T> {
    pub boundary_f0_list: Vec<T>,
    pub decimation_ratio: usize,
    pub y_length: usize,
    pub actual_fs: T,
    pub fft_size: usize,
    pub f0_length: usize,
    pub max_candidates: usize,
}

impl<T: Scalar> Plan<T> {
    /// The plan that `q` asks for.
    pub open spec fn answers(&self, q: Request<T>) -> bool {
        &&& self.boundary_f0_list@ == Seq::new(
            q.channels() as nat,
            |i: int| boundary(q.f0_floor, q.channels_in_octave, i),
        )
        &&& self.decimation_ratio == q.ratio()
        &&& self.y_length == reduced_length(q.x_length as int, q.ratio())
        &&& self.actual_fs == reduced_rate::<T>(q.fs as int, q.ratio())
        &&& is_least_power(self.fft_size as int, q.room())
        &&& self.f0_length == q.frames()
        &&& self.max_candidates == base_candidates(q.channels()) * 7
    }
}

/// The reduced length is never more than the length itself.
pub proof fn lemma_reduced_length(x_length: int, ratio: int)
    requires
        0 <= x_length,
        1 <= ratio,
    ensures
        0 <= reduced_length(x_length, ratio) <= x_length,
        ratio == 1 ==> reduced_length(x_length, ratio) == x_length,
{
    vstd::arithmetic::div_mod::lemma_div_pos_is_pos(x_length + ratio - 1, ratio);
    if x_length == 0 {
        vstd::arithmetic::div_mod::lemma_basic_div(ratio - 1, ratio);
    } else {
        assert(x_length + ratio - 1 <= x_length * ratio) by (nonlinear_arith)
            requires
                1 <= x_length,
                1 <= ratio,
        ;
        vstd::arithmetic::div_mod::lemma_div_is_ordered(
            x_length + ratio - 1,
            x_length * ratio,
            ratio,
        );
        vstd::arithmetic::div_mod::lemma_div_multiples_vanish(x_length, ratio);
        vstd::arithmetic::mul::lemma_mul_is_commutative(x_length, ratio);
    }
    if ratio == 1 {
        vstd::arithmetic::div_mod::lemma_div_basics(x_length);
    }
}

/// Law: a plan meets what the preparation of the waveform asks for.
pub proof fn law_plan_admits_waveform<T: Scalar>(q: Request<T>, plan: Plan<T>)
    requires
        q.feasible(),
        plan.answers(q),
    ensures
        0 < plan.decimation_ratio,
        plan.y_length <= plan.fft_size,
        plan.decimation_ratio != 1 ==> {
            &&& 0 < q.x_length
            &&& lead(plan.decimation_ratio as int) / plan.decimation_ratio as int + plan.y_length
                <= q.x_length + 2 * lead(plan.decimation_ratio as int)
            &&& q.x_length + 2 * lead(plan.decimation_ratio as int) + 18 + plan.decimation_ratio
                <= usize::MAX
        },
{
    lemma_lead(q.ratio());
    lemma_reduced_length(q.x_length as int, q.ratio());
}

/// Works out the sizes of an analysis, nothing where one is out of range.
pub fn plan_analysis<T: Scalar>(q: &Request<T>) -> (plan: Option<Plan<T>>)
    ensures
        match plan {
            Some(p) => q.feasible() && p.answers(*q),
            None => !q.feasible(),
        },
{
    let adjusted_f0_floor: T = q.f0_floor.times(T::from_decimal(9, 1));
    let adjusted_f0_ceil: T = q.f0_ceil.times(T::from_decimal(11, 1));
    let extra_number: usize = adjusted_f0_ceil.over(adjusted_f0_floor).ln().over(
        T::from_decimal(69314718055994529, 17),
    ).times(q.channels_in_octave).to_usize();
    if extra_number > usize::MAX - 6 {
        return None;
    }
    let number_of_channels: usize = 1 + extra_number;
    let decimation_ratio: usize = my_max_i(my_min_i(q.speed, 12), 1) as usize;
    let ghost ratio = decimation_ratio as int;
    proof {
        lemma_lead(ratio);
        lemma_reduced_length(q.x_length as int, ratio);
    }
    if decimation_ratio != 1 && q.x_length == 0 {
        return None;
    }
    let lead_steps: usize = (140 + (decimation_ratio - 1)) / decimation_ratio;
    let around: usize = 2 * (lead_steps * decimation_ratio) + 18 + decimation_ratio;
    if q.x_length > usize::MAX - around {
        return None;
    }
    let y_length: usize = (q.x_length + (decimation_ratio - 1)) / decimation_ratio;
    if y_length > i32::MAX as usize {
        return None;
    }
    let actual_fs: T = T::from_int(q.fs as i128).over(T::from_int(decimation_ratio as i128));
    let one: T = T::from_int(1);
    let lowest: T = adjusted_f0_floor.times(
        T::from_int(0).plus(one).over(q.channels_in_octave).exp2(),
    );
    let margin_length: usize = T::from_int(2).times(actual_fs).over(lowest).to_usize();
    let half: usize = usize::MAX / 2 + 1;
    if y_length > half - 5 || margin_length > (half - 5 - y_length) / 2 {
        return None;
    }
    let fft_size: usize = get_suitable_fft_size(y_length + 5 + 2 * margin_length);
    let f0_length: usize = match checked_samples_for_harvest(
        q.fs,
        q.x_length,
        T::from_int(q.frame_period as i128),
    ) {
        Some(n) => n,
        None => {
            return None;
        },
    };
    if f0_length >= (i32::MAX - 100) as usize {
        return None;
    }
    let mut boundary_f0_list: Vec<T> = Vec::new();
    for i in 0..number_of_channels
        invariant
            one == T::of_int(1),
            adjusted_f0_floor == q.f0_floor * T::of_decimal(9, 1),
            boundary_f0_list@ == Seq::new(
                i as nat,
                |k: int| boundary(q.f0_floor, q.channels_in_octave, k),
            ),
    {
        boundary_f0_list.push(
            adjusted_f0_floor.times(
                T::from_int(i as i128).plus(one).over(q.channels_in_octave).exp2(),
            ),
        );
    }
    let tenth: usize = (number_of_channels + 5) / 10;
    let max_candidates: usize = (if tenth > 1 {
        tenth
    } else {
        1
    }) * 7;
    Some(
        Plan {
            boundary_f0_list,
            decimation_ratio,
            y_length,
            actual_fs,
            fft_size,
            f0_length,
            max_candidates,
        },
    )
}

/// The times of frames, in seconds, `period` milliseconds apart.
pub open spec fn frame_times<T: Scalar>(n: nat, period: T) -> Seq<T> {
    Seq::new(n, |i: int| (T::of_int(i) * period) / T::of_int(1000))
}

/// Lists the times of frames.
pub fn temporal_positions<T: Scalar>(f0_length: usize, frame_period: T) -> (t: Vec<T>)
    ensures
        t@ == frame_times(f0_length as nat, frame_period),
{
    let thousand: T = T::from_int(1000);
    let mut t: Vec<T> = Vec::with_capacity(f0_length);
    for i in 0..f0_length
        invariant
            thousand == T::of_int(1000),
            t@ == frame_times(i as nat, frame_period),
    {
        t.push(T::from_int(i as i128).times(frame_period).over(thousand));
    }
    t
}

/// Whether the filter for `boundary` fits the transform, before and after it.
pub open spec fn filter_fits<T: Scalar>(boundary: T, fs: T, y_length: int, fft_size: int) -> bool {
    &&& 2 * half_length(boundary, fs) + 1 <= fft_size
    &&& y_length + half_length(boundary, fs) + 1 <= fft_size
}

/// Tests whether the filter for `boundary_f0` fits the transform.
pub fn check_filter_fits<T: Scalar>(
    boundary_f0: T,
    fs: T,
    y_length: usize,
    fft_size: usize,
) -> (ok: bool)
    ensures
        ok == filter_fits(boundary_f0, fs, y_length as int, fft_size as int),
{
    let half: usize = filter_length_half(boundary_f0, fs);
    half * 2 + 1 <= fft_size && y_length < fft_size && half < fft_size - y_length
}

/// The candidates of all frames, before neighbours are added.
pub open spec fn detected_grid<T: Scalar>(
    raw: Seq<Seq<T>>,
    channels: nat,
    frames: nat,
    width: nat,
) -> Seq<Seq<T>> {
    Seq::new(frames, |k: int| Seq::new(width, |c: int| detected(raw, channels, k, c)))
}

/// The candidates of all frames from the contours of all channels: `max_candidates`
/// for each frame, and the number that a frame has of its own.
pub fn harvest_general_body_sub<T: Scalar>(
    raw_f0_candidates: &Vec<Vec<T>>,
    f0_length: usize,
    max_candidates: usize,
) -> (r: (Vec<Vec<T>>, usize))
    requires
        0 < raw_f0_candidates@.len() <= usize::MAX - 5,
        base_candidates(raw_f0_candidates@.len() as int) * 7 <= max_candidates,
        forall|k: int|
            0 <= k < raw_f0_candidates@.len() ==> f0_length <= (
            #[trigger] raw_f0_candidates@[k])@.len(),
    ensures
        r.1 == most_detected(
            grid(raw_f0_candidates@),
            raw_f0_candidates@.len(),
            f0_length as nat,
            max_candidates as nat,
        ),
        grid(r.0@) == overlapped(
            detected_grid(
                grid(raw_f0_candidates@),
                raw_f0_candidates@.len(),
                f0_length as nat,
                max_candidates as nat,
            ),
            f0_length as int,
            r.1 as int,
        ),
        r.1 * 7 <= max_candidates,
{
    let ghost raw = grid(raw_f0_candidates@);
    let ghost channels = raw_f0_candidates@.len();
    let number_of_channels: usize = raw_f0_candidates.len();
    let mut f0_candidates: Vec<Vec<T>> = filled_rows(f0_length, max_candidates, nought());
    let ghost blank = grid(f0_candidates@);
    assert(blank.len() == f0_length);
    assert forall|k: int| 0 <= k < f0_length implies (#[trigger] f0_candidates@[k])@.len()
        == max_candidates by {
        assert(blank[k] == f0_candidates@[k]@);
    }
    let number_of_candidates: usize = detect_official_f0_candidates(
        raw_f0_candidates,
        number_of_channels,
        f0_length,
        max_candidates,
        &mut f0_candidates,
    );
    proof {
        law_candidates_take_room(raw, channels, f0_length as nat, max_candidates as nat);
        let all = detected_grid(raw, channels, f0_length as nat, max_candidates as nat);
        assert forall|k: int| 0 <= k < f0_length implies grid(f0_candidates@)[k]
            == #[trigger] all[k] by {
            assert(f0_candidates@[k]@ =~= all[k]);
        }
        assert(grid(f0_candidates@) =~= all);
    }
    overlap_f0_candidates(f0_length, number_of_candidates, &mut f0_candidates);
    (f0_candidates, number_of_candidates)
}

/// The contour that refined candidates and their scores lead to.
pub open spec fn final_contour<T: Scalar>(
    candidates: Seq<Seq<T>>,
    scores: Seq<Seq<T>>,
    frames: nat,
    number: nat,
) -> Seq<T> {
    let kept = pruned(candidates, candidates, frames, number);
    let kept_scores = pruned(scores, candidates, frames, number);
    smoothed(fixed_contour(kept, kept_scores, frames, number), repeated(frames, zero::<T>()))
}

/// Law: the contour has as many frames as were asked for, and a frame that the
/// search left without a positive frequency is zero.
pub proof fn law_unvoiced_frames_are_zero<T: Scalar>(
    candidates: Seq<Seq<T>>,
    scores: Seq<Seq<T>>,
    frames: nat,
    number: nat,
    p: int,
)
    requires
        0 <= p < frames,
        frames + 600 <= usize::MAX,
    ensures
        ({
            let kept = pruned(candidates, candidates, frames, number);
            let kept_scores = pruned(scores, candidates, frames, number);
            let best = fixed_contour(kept, kept_scores, frames, number);
            let f0 = final_contour(candidates, scores, frames, number);
            &&& best.len() == frames
            &&& f0.len() == frames
            &&& !(zero::<T>() < best[p]) ==> f0[p] == zero::<T>()
        }),
{
    let kept = pruned(candidates, candidates, frames, number);
    let kept_scores = pruned(scores, candidates, frames, number);
    law_fixed_contour_length(kept, kept_scores, frames, number);
    law_only_voiced_frames_are_smoothed(
        fixed_contour(kept, kept_scores, frames, number),
        repeated(frames, zero::<T>()),
        p,
    );
}

/// Draws the contour from refined candidates and their scores.
pub fn conclude<T: Scalar>(
    f0_candidates: &mut Vec<Vec<T>>,
    f0_scores: &mut Vec<Vec<T>>,
    f0_length: usize,
    number_of_candidates: usize,
) -> (f0: Vec<T>)
    requires
        f0_length < i32::MAX - 100,
        f0_length <= old(f0_candidates)@.len(),
        f0_length <= old(f0_scores)@.len(),
        forall|i: int|
            0 <= i < old(f0_candidates)@.len() ==> number_of_candidates <= (
            #[trigger] old(f0_candidates)@[i])@.len(),
        forall|i: int|
            0 <= i < f0_length ==> number_of_candidates <= (#[trigger] old(f0_scores)@[i])@.len(),
    ensures
        f0@ == final_contour(
            grid(old(f0_candidates)@),
            grid(old(f0_scores)@),
            f0_length as nat,
            number_of_candidates as nat,
        ),
        f0@.len() == f0_length,
{
    let ghost c = grid(f0_candidates@);
    let ghost s = grid(f0_scores@);
    let ghost n = number_of_candidates as nat;
    let ghost frames = f0_length as nat;
    assert forall|i: int| 0 <= i < f0_length implies n <= (#[trigger] c[i]).len() by {
        assert(c[i] == f0_candidates@[i]@);
    }
    assert forall|i: int| 0 <= i < f0_length implies n <= (#[trigger] s[i]).len() by {
        assert(s[i] == f0_scores@[i]@);
    }
    remove_unreliable_candidates(f0_candidates, f0_scores, f0_length, number_of_candidates);
    assert(evidence(f0_candidates@, f0_scores@, number_of_candidates).covers(frames)) by {
        let ev = evidence(f0_candidates@, f0_scores@, number_of_candidates);
        assert forall|p: int| 0 <= p < frames implies n <= (#[trigger] ev.candidates[p]).len() by {
            assert(ev.candidates[p].len() == c[p].len());
        }
        assert forall|p: int| 0 <= p < frames implies n <= (#[trigger] ev.scores[p]).len() by {
            assert(ev.scores[p].len() == s[p].len());
        }
    }
    let best_f0_contour: Vec<T> = fix_f0_contour(
        f0_candidates,
        f0_scores,
        f0_length,
        number_of_candidates,
    );
    let mut f0: Vec<T> = filled(f0_length, nought());
    smooth_f0_contour(&best_f0_contour, &mut f0);
    f0
}

/// Whether frames one millisecond apart are asked for.
pub open spec fn unit_period<T: Scalar>(frame_period: T) -> bool {
    (frame_period - T::of_int(1)).magnitude() < safe_guard::<T>()
}

/// By how much the rate `fs` is to be reduced to come near 8000 per second.
pub fn dimension_ratio<T: Scalar>(fs: i32) -> (r: i32)
    ensures
        r == rounded(T::of_int(fs as int) / T::of_int(8000)),
{
    matlab_round(T::from_int(fs as i128).over(T::from_int(8000)))
}

/// The numbers of frames of an analysis: one millisecond apart (`basic`), and as
/// asked for (`own`).
pub struct FrameCounts {
    pub basic: usize,
    pub own: usize,
}

/// Whether both numbers of frames are in range and, where frames one millisecond
/// apart are asked for, all of them find room.
pub open spec fn countable<T: Scalar>(fs: int, x_length: int, frame_period: T) -> bool {
    let basic = frame_number(fs, x_length, T::of_int(1));
    let own = frame_number(fs, x_length, frame_period);
    basic <= usize::MAX && own <= usize::MAX && (unit_period(frame_period) ==> basic <= own)
}

/// Counts the frames, nothing where that cannot be done.
pub fn count_frames<T: Scalar>(fs: i32, x_length: usize, frame_period: T) -> (r: Option<
    FrameCounts,
>)
    ensures
        match r {
            Some(c) => {
                &&& countable(fs as int, x_length as int, frame_period)
                &&& c.basic == frame_number(fs as int, x_length as int, T::of_int(1))
                &&& c.own == frame_number(fs as int, x_length as int, frame_period)
            },
            None => !countable(fs as int, x_length as int, frame_period),
        },
{
    let one: T = T::from_int(1);
    let unit: bool = frame_period.minus(one).abs().less(guard());
    match (
        checked_samples_for_harvest(fs, x_length, one),
        checked_samples_for_harvest(fs, x_length, frame_period),
    ) {
        (Some(basic), Some(own)) => if unit && own < basic {
            None
        } else {
            Some(FrameCounts { basic, own })
        },
        _ => None,
    }
}

/// The frame, one millisecond apart from the next, nearest to time `t`, the last
/// of `n` at most.
pub open spec fn nearest_frame<T: Scalar>(t: T, n: int) -> int {
    let i = at_least_zero(rounded(t * T::of_int(1000))) as int;
    if i < n - 1 {
        i
    } else {
        n - 1
    }
}

/// Whether each of `n` frames one millisecond apart is the one nearest to its own
/// time.
pub open spec fn milliseconds_come_back<T: Scalar>(n: nat) -> bool {
    forall|m: int|
        0 <= m < n ==> nearest_frame(
            #[trigger] frame_times(n, T::of_int(1))[m],
            n as int,
        ) == m
}

/// The times of the frames asked for.
pub open spec fn output_times<T: Scalar>(basic: nat, own: nat, frame_period: T) -> Seq<T> {
    if unit_period(frame_period) {
        frame_times(basic, T::of_int(1)) + repeated((own - basic) as nat, zero::<T>())
    } else {
        frame_times(own, frame_period)
    }
}

/// The frequencies of the frames asked for, from those one millisecond apart.
pub open spec fn output_contour<T: Scalar>(basic: Seq<T>, own: nat, frame_period: T) -> Seq<T> {
    if unit_period(frame_period) {
        basic + repeated((own - basic.len()) as nat, zero::<T>())
    } else {
        let times = frame_times(own, frame_period);
        Seq::new(own, |i: int| basic[nearest_frame(times[i], basic.len() as int)])
    }
}

/// Times and frequencies of the frames asked for, given the frequencies of frames
/// one millisecond apart.
pub fn resample<T: Scalar>(
    basic_f0: &[T],
    fs: i32,
    x_length: usize,
    option: &HarvestOption<T>,
) -> (r: (Vec<T>, Vec<T>))
    requires
        countable(fs as int, x_length as int, option.frame_period),
        basic_f0@.len() == frame_number(fs as int, x_length as int, T::of_int(1)),
    ensures
        r.0@ == output_times(
            basic_f0@.len(),
            frame_number(fs as int, x_length as int, option.frame_period) as nat,
            option.frame_period,
        ),
        r.1@ == output_contour(
            basic_f0@,
            frame_number(fs as int, x_length as int, option.frame_period) as nat,
            option.frame_period,
        ),
{
    let period: T = option.frame_period;
    let o: T = nought();
    let one: T = T::from_int(1);
    let basic_len: usize = basic_f0.len();
    let f0_length: usize = get_samples_for_harvest(fs, x_length, period);
    if period.minus(one).abs().less(guard()) {
        let mut t: Vec<T> = temporal_positions(basic_len, one);
        let mut f0: Vec<T> = Vec::with_capacity(f0_length);
        for i in 0..basic_len
            invariant
                basic_len == basic_f0@.len(),
                f0@ == basic_f0@.take(i as int),
        {
            f0.push(basic_f0[i]);
        }
        let ghost times = t@;
        for i in basic_len..f0_length
            invariant
                o == zero::<T>(),
                basic_len <= f0_length,
                basic_len == basic_f0@.len(),
                t@ == times + repeated((i - basic_len) as nat, zero::<T>()),
                f0@ == basic_f0@ + repeated((i - basic_len) as nat, zero::<T>()),
        {
            t.push(o);
            f0.push(o);
        }
        return (t, f0);
    }
    let thousand: T = T::from_int(1000);
    let t: Vec<T> = temporal_positions(f0_length, period);
    let mut f0: Vec<T> = Vec::with_capacity(f0_length);
    for i in 0..f0_length
        invariant
            thousand == T::of_int(1000),
            0 < basic_len == basic_f0@.len(),
            !unit_period(period),
            t@ == frame_times(f0_length as nat, period),
            f0@ == output_contour(basic_f0@, f0_length as nat, period).take(i as int),
    {
        let raw: usize = clip_below_zero(matlab_round(t[i].times(thousand)));
        let idx: usize = if raw < basic_len - 1 { raw } else { basic_len - 1 };
        f0.push(basic_f0[idx]);
    }
    assert(f0@ =~= output_contour(basic_f0@, f0_length as nat, period));
    (t, f0)
}

/// Law: times and frequencies are as many as there are frames, and each frequency
/// is one of those one millisecond apart, or zero.
pub proof fn law_output_selects<T: Scalar>(
    basic: Seq<T>,
    own: nat,
    frame_period: T,
    i: int,
)
    requires
        0 < basic.len(),
        unit_period(frame_period) ==> basic.len() <= own,
        0 <= i < own,
    ensures
        output_times(basic.len(), own, frame_period).len() == own,
        output_contour(basic, own, frame_period).len() == own,
        basic.contains(output_contour(basic, own, frame_period)[i]) || output_contour(
            basic,
            own,
            frame_period,
        )[i] == zero::<T>(),
{
    if unit_period(frame_period) {
        if i < basic.len() {
            assert(output_contour(basic, own, frame_period)[i] == basic[i]);
        }
    } else {
        let times = frame_times(own, frame_period);
        let k = nearest_frame(times[i], basic.len() as int);
        assert(output_contour(basic, own, frame_period)[i] == basic[k]);
    }
}

/// How many of the first `n` frames have a positive frequency.
pub open spec fn voiced_among<T: Scalar>(f0: Seq<T>, n: int) -> nat
    decreases n,
{
    if n <= 0 {
        0
    } else {
        voiced_among(f0, n - 1) + if zero::<T>() < f0[n - 1] {
            1nat
        } else {
            0
        }
    }
}

/// How many frames have a positive frequency.
pub fn voiced_frames<T: Scalar>(f0: &[T]) -> (n: usize)
    ensures
        n == voiced_among(f0@, f0@.len() as int),
        n <= f0@.len(),
{
    let o: T = nought();
    let mut n: usize = 0;
    for i in 0..f0.len()
        invariant
            o == zero::<T>(),
            n == voiced_among(f0@, i as int),
            n <= i,
    {
        if o.less(f0[i]) {
            n = n + 1;
        }
    }
    n
}

} // verus!
