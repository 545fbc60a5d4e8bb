//! When an analysis succeeds: its lengths are in range, numbers keep their order
//! where the sizes of filters and windows are worked out, and the transforms give
//! back as much as they are asked for.
use crate::analysis::{Analysis, Fault, inverts, transforms};
use crate::basics::{grid, rounded, zero};
use crate::batch::{ArrayEstimate, ArrayFault, array_outcome, estimated, row};
use crate::candidates::{detected, law_candidates_take_room, lending_frame};
use crate::crossing::{crossing_lists, law_candidate_contour_within_bounds};
use crate::estimator::{
    Heard, Refined, collected, estimates, fails, harvest, hearing_fails, leads_to, possible,
    request_for, shaped, well_heard, well_refined,
};
use crate::harvest::{
    HarvestOption, Plan, Request, boundary, filter_fits, frame_number, margin, output_contour,
    output_times,
};
use crate::outcome::{
    Transforms, computes, law_contour_follows, law_walks_work_item_by_item, lemma_same_analysis,
    steps_by, steps_walk,
};
use crate::refine::{
    basic_index, half_window, law_frames_fill_the_transform, manageable, window_length,
};
use crate::scalar::{Scalar, ordered_numbers, totally_ordered};
use crate::spectrum::{Complex, filtered, half_length, products};
use vstd::prelude::*;

verus! {

/// Numbers keep their order through every operation by which the sizes of filters
/// and windows are worked out, as far as they are finite; and doubling a number in
/// the range of `i32` before a division or after it comes to the same, up to a
/// sample.
pub open spec fn steady_numbers<T: Scalar>() -> bool {
    let o = zero::<T>();
    let two = T::of_int(2);
    &&& ordered_numbers::<T>()
    &&& totally_ordered::<T>()
    &&& forall|x: T, y: T, z: T|
        #![trigger x + z, y + z]
        #![trigger z + x, z + y]
        x.finite() && y.finite() && z.finite() && x <= y ==> x + z <= y + z && z + x <= z + y
    &&& forall|x: T, y: T|
        #![trigger (-x), (-y)]
        x.finite() && y.finite() && x <= y ==> -y <= -x
    &&& forall|x: T, y: T, k: T|
        #![trigger x * k, y * k]
        o < k && k.finite() && x.finite() && y.finite() && x <= y ==> x * k <= y * k
    &&& forall|x: T, d: T, e: T|
        #![trigger x / d, x / e]
        x.finite() && d.finite() && e.finite() && o <= x && o < d && d <= e ==> o <= x / e && x / e
            <= x / d
    &&& forall|x: T, y: T|
        #![trigger x.power_of_two(), y.power_of_two()]
        x.finite() && y.finite() && o <= x && x <= y ==> x.power_of_two() <= y.power_of_two()
    &&& forall|x: T, y: T|
        #![trigger rounded(x), rounded(y)]
        !x.undefined() && !y.undefined() && x <= y ==> rounded(x) <= rounded(y)
    &&& forall|x: T, d: T|
        #![trigger (x / d) * two]
        x.finite() && d.finite() && o <= x && x <= T::of_int(i32::MAX as int) && o < d
            ==> rounded((x / d) * two) <= ((two * x) / d).as_usize() + 1
    &&& forall|x: T| #[trigger] x.finite() ==> !x.undefined()
    &&& o < two && two.finite()
}

/// The frequency of channel `i` of `q`, its period in samples at the rate `fs`, and
/// what they are worked out from, are finite.
pub open spec fn finite_channel<T: Scalar>(q: Request<T>, fs: T, i: int) -> bool {
    let b = boundary(q.f0_floor, q.channels_in_octave, i);
    let step = T::of_int(i) + T::of_int(1);
    let octaves = step / q.channels_in_octave;
    &&& T::of_int(i).finite()
    &&& step.finite()
    &&& octaves.finite()
    &&& octaves.power_of_two().finite()
    &&& b.finite()
    &&& (fs / b).finite()
    &&& ((fs / b) * T::of_int(2)).finite()
}

/// The numbers of `q` are finite, and those positive that have to be: floor, rate,
/// channels in an octave and the frequency of the lowest channel.
pub open spec fn ordinary<T: Scalar>(q: Request<T>, fs: T) -> bool {
    let o = zero::<T>();
    let low = q.f0_floor * T::of_decimal(9, 1);
    &&& T::of_int(1).finite()
    &&& o < low && low.finite()
    &&& o < fs && fs <= T::of_int(i32::MAX as int) && fs.finite()
    &&& o < q.channels_in_octave && q.channels_in_octave.finite()
    &&& o <= (T::of_int(0) + T::of_int(1)) / q.channels_in_octave
    &&& o < q.lowest()
}

/// Law: for steady numbers, the frequencies of channels never fall.
pub proof fn law_channels_rise<T: Scalar>(q: Request<T>, fs: T, i: int, j: int)
    requires
        steady_numbers::<T>(),
        ordinary(q, fs),
        0 <= i <= j,
        finite_channel(q, fs, 0),
        finite_channel(q, fs, i),
        finite_channel(q, fs, j),
    ensures
        boundary(q.f0_floor, q.channels_in_octave, i) <= boundary(
            q.f0_floor,
            q.channels_in_octave,
            j,
        ),
{
    let one = T::of_int(1);
    let c = q.channels_in_octave;
    let low = q.f0_floor * T::of_decimal(9, 1);
    let first = (T::of_int(0) + one) / c;
    assert(T::of_int(0) <= T::of_int(i) && T::of_int(i) <= T::of_int(j));
    assert(T::of_int(0) + one <= T::of_int(i) + one);
    assert(T::of_int(i) + one <= T::of_int(j) + one);
    let x = (T::of_int(i) + one) / c;
    let y = (T::of_int(j) + one) / c;
    assert(first <= x && x <= y);
    assert(zero::<T>() <= x);
    assert(x.power_of_two() <= y.power_of_two());
    assert(low * x.power_of_two() <= low * y.power_of_two());
}

/// Law: for steady numbers, the filter of every channel of a plan fits the
/// transform.
pub proof fn law_every_channel_fits<T: Scalar>(q: Request<T>, plan: Plan<T>, i: int)
    requires
        steady_numbers::<T>(),
        q.feasible(),
        plan.answers(q),
        ordinary(q, plan.actual_fs),
        0 <= i < q.channels(),
        finite_channel(q, plan.actual_fs, 0),
        finite_channel(q, plan.actual_fs, i),
    ensures
        filter_fits(
            plan.boundary_f0_list@[i],
            plan.actual_fs,
            plan.y_length as int,
            plan.fft_size as int,
        ),
{
    let two = T::of_int(2);
    let fs = plan.actual_fs;
    let b = plan.boundary_f0_list@[i];
    let low = q.lowest();
    law_channels_rise(q, fs, 0, i);
    assert(low <= b);
    assert(zero::<T>() <= fs);
    let x = fs / b;
    let y = fs / low;
    assert(zero::<T>() <= x && x <= y);
    assert(x * two <= y * two);
    assert(rounded(x * two) <= rounded(y * two));
    assert(rounded((fs / low) * two) <= ((two * fs) / low).as_usize() + 1);
    assert(half_length(b, fs) <= margin::<T>(q.fs as int, q.ratio(), low) + 1);
}

/// The start of a window of `2 * h + 1` samples around `position`, and what it is
/// worked out from, are finite.
pub open spec fn finite_window<T: Scalar>(fs: T, position: T, h: int) -> bool {
    let n = -T::of_int(h);
    let first = (n + T::of_int(0)) / fs;
    &&& T::of_int(h).finite()
    &&& n.finite()
    &&& (n + T::of_int(0)).finite()
    &&& first.finite()
    &&& (position + first).finite()
    &&& ((position + first) * fs).finite()
    &&& ((position + first) * fs + T::of_decimal(1, 3)).finite()
}

/// The length of the window for `f0`, as a number, is finite.
pub open spec fn finite_length<T: Scalar>(fs: T, f0: T) -> bool {
    let n = T::of_decimal(15, 1) * fs;
    f0.finite() && (n / f0).finite() && (n / f0 + T::of_int(1)).finite()
}

/// Law: for steady numbers, a higher frequency has no longer window.
pub proof fn law_higher_candidates_have_shorter_windows<T: Scalar>(fs: T, low: T, f0: T)
    requires
        steady_numbers::<T>(),
        zero::<T>() < low && low <= f0,
        zero::<T>() <= T::of_decimal(15, 1) * fs && (T::of_decimal(15, 1) * fs).finite(),
        T::of_int(1).finite(),
        finite_length(fs, low),
        finite_length(fs, f0),
    ensures
        half_window(fs, f0) <= half_window(fs, low),
{
    let n = T::of_decimal(15, 1) * fs;
    let one = T::of_int(1);
    assert(n / f0 <= n / low);
    assert(n / f0 + one <= n / low + one);
}

proof fn lemma_start_moves<T: Scalar>(fs: T, position: T, h: int, k: int)
    requires
        steady_numbers::<T>(),
        zero::<T>() < fs && fs.finite(),
        position.finite(),
        T::of_int(0).finite(),
        T::of_decimal(1, 3).finite(),
        0 <= h <= k,
        finite_window(fs, position, h),
        finite_window(fs, position, k),
    ensures
        basic_index(position, (-T::of_int(k) + T::of_int(0)) / fs, fs) <= basic_index(
            position,
            (-T::of_int(h) + T::of_int(0)) / fs,
            fs,
        ),
{
    let o = T::of_int(0);
    let e = T::of_decimal(1, 3);
    let a = (-T::of_int(k) + o) / fs;
    let b = (-T::of_int(h) + o) / fs;
    assert(T::of_int(h) <= T::of_int(k));
    assert(-T::of_int(k) <= -T::of_int(h));
    assert(-T::of_int(k) + o <= -T::of_int(h) + o);
    assert(a <= b);
    assert(position + a <= position + b);
    assert((position + a) * fs <= (position + b) * fs);
    assert((position + a) * fs + e <= (position + b) * fs + e);
}

/// Law: for steady numbers, if the window for `low` is manageable at `position`,
/// and one as long would be that starts there, then so is the window for every
/// frequency that is not below `low`.
pub proof fn law_higher_candidates_are_manageable<T: Scalar>(fs: T, position: T, low: T, f0: T)
    requires
        steady_numbers::<T>(),
        zero::<T>() < low && low <= f0,
        zero::<T>() < fs && fs.finite(),
        zero::<T>() <= T::of_decimal(15, 1) * fs && (T::of_decimal(15, 1) * fs).finite(),
        position.finite(),
        T::of_int(0).finite() && T::of_int(1).finite() && T::of_decimal(1, 3).finite(),
        finite_length(fs, low),
        finite_length(fs, f0),
        finite_window(fs, position, half_window(fs, low)),
        finite_window(fs, position, half_window(fs, f0)),
        finite_window(fs, position, 0),
        manageable(fs, position, low),
        basic_index(position, (-T::of_int(0) + T::of_int(0)) / fs, fs) + window_length(fs, low)
            <= i32::MAX + 1,
    ensures
        manageable(fs, position, f0),
{
    law_higher_candidates_have_shorter_windows(fs, low, f0);
    lemma_start_moves(fs, position, half_window(fs, f0), half_window(fs, low));
    lemma_start_moves(fs, position, 0, half_window(fs, f0));
}

/// Whether the transforms give back as much as they are asked for: a spectrum of
/// half the length of the signal and one entry more, and a signal of the length
/// asked for.
pub open spec fn full_transforms<T, F, G>(forward: F, inverse: G) -> bool where
    F: Fn(Vec<T>) -> Vec<Complex<T>>,
    G: Fn(Vec<Complex<T>>, usize) -> Vec<T>,
 {
    &&& forall|v: Vec<T>, w: Vec<Complex<T>>| #[trigger]
        call_ensures(forward, (v,), w) ==> w@.len() == v@.len() / 2 + 1
    &&& forall|v: Vec<Complex<T>>, n: usize, w: Vec<T>| #[trigger]
        call_ensures(inverse, (v, n), w) ==> w@.len() == n
}

/// Law: with full transforms no channel gives a result too short to go on with.
pub proof fn law_no_channel_is_cut_short<T: Scalar, F, G>(
    a: Analysis<T>,
    forward: F,
    inverse: G,
) where F: Fn(Vec<T>) -> Vec<Complex<T>>, G: Fn(Vec<Complex<T>>, usize) -> Vec<T>
    requires
        a.well_formed(),
        full_transforms(forward, inverse),
    ensures
        !a.hears_some_short(forward, inverse),
{
    if a.hears_some_short(forward, inverse) {
        let (s, i) = choose|s: Seq<Complex<T>>, i: int|
            {
                &&& #[trigger] transforms(forward, a.y@, s)
                &&& 0 <= i < a.channels()
                &&& #[trigger] a.hears_short(i, s, forward, inverse)
            };
        let h = choose|h: Seq<Complex<T>>|
            {
                &&& #[trigger] transforms(forward, a.channel_filter(i), h)
                &&& h.len() < s.len() || exists|time: Seq<T>|
                    {
                        &&& #[trigger] inverts(inverse, products(s, h), a.plan.fft_size, time)
                        &&& time.len() < a.plan.fft_size
                    }
            };
        assert(a.channel_filter(i).len() == a.y@.len());
        assert(h.len() == s.len());
    }
}

/// Law: with a full transform no candidate gives a spectrum too short to go on
/// with.
pub proof fn law_no_candidate_is_cut_short<T: Scalar, F, G>(
    a: Analysis<T>,
    k: int,
    f0: T,
    forward: F,
    inverse: G,
) where F: Fn(Vec<T>) -> Vec<Complex<T>>, G: Fn(Vec<Complex<T>>, usize) -> Vec<T>
    requires
        full_transforms(forward, inverse),
    ensures
        !a.refines_short(k, f0, forward),
{
    law_frames_fill_the_transform(
        a.samples(),
        a.plan.actual_fs,
        a.temporal_positions@[k],
        f0,
    );
}

/// Law: what is heard in a channel at a frame is zero, or lies from the floor up to
/// the ceiling.
pub proof fn law_heard_contours_are_within_bounds<T: Scalar, F, G>(
    a: Analysis<T>,
    forward: F,
    inverse: G,
    raw: Seq<Seq<T>>,
    i: int,
    k: int,
) where F: Fn(Vec<T>) -> Vec<Complex<T>>, G: Fn(Vec<Complex<T>>, usize) -> Vec<T>
    requires
        a.hears_all(forward, inverse, raw),
        0 <= i < a.channels(),
        0 <= k < a.plan.f0_length,
    ensures
        raw[i][k] == zero::<T>() || (a.request.f0_floor <= raw[i][k] && raw[i][k]
            <= a.request.f0_ceil),
{
    let s = choose|s: Seq<Complex<T>>|
        {
            &&& #[trigger] transforms(forward, a.y@, s)
            &&& raw.len() == a.channels()
            &&& forall|i: int|
                0 <= i < raw.len() ==> a.hears(i, s, forward, inverse, #[trigger] raw[i])
        };
    assert(a.hears(i, s, forward, inverse, raw[i]));
    let (h, time) = choose|h: Seq<Complex<T>>, time: Seq<T>|
        {
            &&& #[trigger] transforms(forward, a.channel_filter(i), h)
            &&& #[trigger] inverts(inverse, products(s, h), a.plan.fft_size, time)
            &&& raw[i] == a.channel_contour(i, time)
        };
    let b = a.plan.boundary_f0_list@[i];
    let y_length = a.plan.y_length as int;
    let fs = a.plan.actual_fs;
    law_candidate_contour_within_bounds(
        crossing_lists(filtered(time, b, a.plan.fft_size as nat, fs, y_length), y_length, fs),
        b,
        a.request.f0_floor,
        a.request.f0_ceil,
        a.temporal_positions@,
        a.plan.f0_length as nat,
        k,
    );
}

/// Law: every candidate of a frame, neighbours included, was detected in some
/// frame.
pub proof fn law_candidates_were_detected<T: Scalar>(
    a: Analysis<T>,
    raw: Seq<Seq<T>>,
    k: int,
    j: int,
) -> (r: (int, int))
    requires
        a.well_formed(),
        0 <= k < a.plan.f0_length,
        0 <= j < a.plan.max_candidates,
    ensures
        0 <= r.0 < a.plan.f0_length,
        0 <= r.1 < a.plan.max_candidates,
        a.candidate_grid(raw)[k][j] == detected(raw, a.channels(), r.0, r.1),
{
    let frames = a.plan.f0_length as int;
    let width = a.plan.max_candidates as nat;
    let number = a.own_number(raw) as int;
    law_candidates_take_room(raw, a.channels(), frames as nat, width);
    if 0 < number && 1 <= j / number <= 6 && 0 <= lending_frame(k, j / number) < frames {
        vstd::arithmetic::div_mod::lemma_mod_bound(j, number);
        (lending_frame(k, j / number), j % number)
    } else {
        (k, j)
    }
}

/// Whether every channel of `a` fits the transform, and every candidate that the
/// transforms may give can be refined.
pub open spec fn workable<T: Scalar, F, G>(a: Analysis<T>, forward: F, inverse: G) -> bool where
    F: Fn(Vec<T>) -> Vec<Complex<T>>,
    G: Fn(Vec<Complex<T>>, usize) -> Vec<T>,
 {
    &&& forall|i: int| 0 <= i < a.channels() ==> #[trigger] a.channel_fits(i)
    &&& forall|raw: Seq<Seq<T>>, k: int, j: int|
        #![trigger a.hears_all(forward, inverse, raw), a.candidate_grid(raw)[k][j]]
        a.hears_all(forward, inverse, raw) && 0 <= k < a.plan.f0_length && 0 <= j
            < a.plan.max_candidates ==> a.refinable(k, a.candidate_grid(raw)[k][j])
}

/// Whether some channel, or some candidate that the transforms may give, may have a
/// result too short to go on with.
pub open spec fn cut_short<T: Scalar, F, G>(a: Analysis<T>, forward: F, inverse: G) -> bool where
    F: Fn(Vec<T>) -> Vec<Complex<T>>,
    G: Fn(Vec<Complex<T>>, usize) -> Vec<T>,
 {
    a.hears_some_short(forward, inverse) || exists|raw: Seq<Seq<T>>, k: int, j: int|
        {
            &&& #[trigger] a.hears_all(forward, inverse, raw)
            &&& 0 <= k < a.plan.f0_length
            &&& 0 <= j < a.plan.max_candidates
            &&& a.refines_short(k, #[trigger] a.candidate_grid(raw)[k][j], forward)
        }
}

/// Law: with full transforms nothing is cut short.
pub proof fn law_nothing_is_cut_short<T: Scalar, F, G>(a: Analysis<T>, forward: F, inverse: G) where
    F: Fn(Vec<T>) -> Vec<Complex<T>>,
    G: Fn(Vec<Complex<T>>, usize) -> Vec<T>,

    requires
        a.well_formed(),
        full_transforms(forward, inverse),
    ensures
        !cut_short(a, forward, inverse),
{
    law_no_channel_is_cut_short(a, forward, inverse);
    assert forall|raw: Seq<Seq<T>>, k: int, j: int|
        #![trigger a.hears_all(forward, inverse, raw), a.candidate_grid(raw)[k][j]]
        !a.refines_short(k, a.candidate_grid(raw)[k][j], forward) by {
        law_no_candidate_is_cut_short(a, k, a.candidate_grid(raw)[k][j], forward, inverse);
    }
}

/// Whether fault `e` has its cause in the estimate of `x`: a length is out of range,
/// or a channel does not fit or a candidate cannot be refined; or something is cut
/// short.
pub open spec fn has_cause<T: Scalar, F, G>(
    x: Seq<T>,
    fs: i32,
    option: HarvestOption<T>,
    forward: F,
    inverse: G,
    e: Fault,
) -> bool where F: Fn(Vec<T>) -> Vec<Complex<T>>, G: Fn(Vec<Complex<T>>, usize) -> Vec<T> {
    let q = request_for(x.len() as usize, fs, option);
    match e {
        Fault::OutOfRange => !possible(x, fs, option) || exists|a: Analysis<T>|
            a.request == q && #[trigger] a.analyses(x) && !workable(a, forward, inverse),
        Fault::Shape => possible(x, fs, option) && exists|a: Analysis<T>|
            a.request == q && #[trigger] a.analyses(x) && cut_short(a, forward, inverse),
    }
}

/// Law: where the steps walk over all channels and all candidates, every fault of an
/// estimate has its cause.
pub proof fn law_faults_have_causes<T: Scalar, L, R, F, G>(
    x: Seq<T>,
    fs: i32,
    option: HarvestOption<T>,
    listen: L,
    refine: R,
    forward: F,
    inverse: G,
    e: Fault,
) where
    L: Fn(&Analysis<T>) -> Heard<T>,
    R: Fn(&Analysis<T>, Vec<Vec<T>>, usize) -> Refined<T>,
    F: Fn(Vec<T>) -> Vec<Complex<T>>,
    G: Fn(Vec<Complex<T>>, usize) -> Vec<T>,

    requires
        steps_walk(listen, refine, forward, inverse),
        fails(x, fs, option, listen, refine, e),
    ensures
        has_cause(x, fs, option, forward, inverse, e),
{
    let q = request_for(x.len() as usize, fs, option);
    if !possible(x, fs, option) {
    } else if hearing_fails(x, q, listen, e) {
        let (a, h) = choose|a: Analysis<T>, h: Heard<T>|
            {
                &&& a.request == q && a.analyses(x)
                &&& #[trigger] call_ensures(listen, (&a,), h)
                &&& match h {
                    Ok(raw) => !well_heard(a, raw) && e is Shape,
                    Err(fault) => e == fault,
                }
            };
        assert(a.hearing(forward, inverse, h));
        assert(a.analyses(x));
    } else {
        let (a, raw, c, n, r) = choose|
            a: Analysis<T>,
            raw: Vec<Vec<T>>,
            c: Vec<Vec<T>>,
            n: usize,
            r: Refined<T>,
        |
            {
                &&& a.request == q && a.analyses(x)
                &&& #[trigger] call_ensures(listen, (&a,), Ok::<Vec<Vec<T>>, Fault>(raw))
                &&& well_heard(a, raw)
                &&& collected(a, raw, c, n)
                &&& #[trigger] call_ensures(refine, (&a, c, n), r)
                &&& match r {
                    Ok(p) => !well_refined(a, p) && e is Shape,
                    Err(fault) => e == fault,
                }
            };
        lemma_refining_faults(a, forward, inverse, raw, c, n, r);
        assert(a.analyses(x));
    }
}

proof fn lemma_refining_faults<T: Scalar, F, G>(
    a: Analysis<T>,
    forward: F,
    inverse: G,
    raw: Vec<Vec<T>>,
    c: Vec<Vec<T>>,
    n: usize,
    r: Refined<T>,
) where F: Fn(Vec<T>) -> Vec<Complex<T>>, G: Fn(Vec<Complex<T>>, usize) -> Vec<T>
    requires
        a.well_formed(),
        a.hearing(forward, inverse, Ok::<Vec<Vec<T>>, Fault>(raw)),
        collected(a, raw, c, n),
        a.refining(grid(c@), n as int, forward, r),
    ensures
        match r {
            Ok(p) => well_refined(a, p),
            Err(Fault::OutOfRange) => !workable(a, forward, inverse),
            Err(Fault::Shape) => cut_short(a, forward, inverse),
        },
{
    let g = grid(raw@);
    let all = grid(c@);
    assert(a.hears_all(forward, inverse, g));
    assert(all == a.candidate_grid(g));
    law_candidates_take_room(
        g,
        a.channels(),
        a.plan.f0_length as nat,
        a.plan.max_candidates as nat,
    );
    assert(n <= a.plan.max_candidates);
    match r {
        Ok(p) => {
            assert forall|k: int| 0 <= k < a.plan.f0_length implies (#[trigger] p.0@[k])@.len()
                == a.plan.max_candidates by {
                assert(grid(p.0@)[k] == p.0@[k]@);
                assert(all[k].len() == a.plan.max_candidates);
            }
            assert forall|k: int| 0 <= k < a.plan.f0_length implies (#[trigger] p.1@[k])@.len()
                == a.plan.max_candidates by {
                assert(grid(p.1@)[k] == p.1@[k]@);
                assert(all[k].len() == a.plan.max_candidates);
            }
            assert(grid(p.0@).len() == p.0@.len() && grid(p.1@).len() == p.1@.len());
        },
        Err(Fault::OutOfRange) => {
            let (k, j) = choose|k: int, j: int|
                {
                    &&& 0 <= k < all.len()
                    &&& 0 <= j < n
                    &&& !a.refinable(k, #[trigger] all[k][j])
                };
            assert(!a.refinable(k, a.candidate_grid(g)[k][j]));
        },
        Err(Fault::Shape) => {
            let (k, j) = choose|k: int, j: int|
                {
                    &&& 0 <= k < all.len()
                    &&& 0 <= j < n
                    &&& !(#[trigger] all[k][j] <= zero::<T>())
                    &&& a.refines_short(k, all[k][j], forward)
                };
            assert(a.refines_short(k, a.candidate_grid(g)[k][j], forward));
        },
    }
}

/// Whether an estimate of `x` can be had: all lengths are in range, and its analysis
/// is workable.
pub open spec fn estimable<T: Scalar, F, G>(
    x: Seq<T>,
    fs: i32,
    option: HarvestOption<T>,
    forward: F,
    inverse: G,
) -> bool where F: Fn(Vec<T>) -> Vec<Complex<T>>, G: Fn(Vec<Complex<T>>, usize) -> Vec<T> {
    &&& possible(x, fs, option)
    &&& forall|a: Analysis<T>|
        a.request == request_for(x.len() as usize, fs, option) && #[trigger] a.analyses(x)
            ==> workable(a, forward, inverse)
}

/// Law: with full transforms no fault has its cause in an estimate that can be had, so
/// that [`harvest_in_turn`] succeeds.
pub proof fn law_no_fault_has_a_cause<T: Scalar, F, G>(
    x: Seq<T>,
    fs: i32,
    option: HarvestOption<T>,
    forward: F,
    inverse: G,
    e: Fault,
) where F: Fn(Vec<T>) -> Vec<Complex<T>>, G: Fn(Vec<Complex<T>>, usize) -> Vec<T>
    requires
        estimable(x, fs, option, forward, inverse),
        full_transforms(forward, inverse),
    ensures
        !has_cause(x, fs, option, forward, inverse, e),
{
    assert forall|a: Analysis<T>| #[trigger] a.analyses(x) implies !cut_short(
        a,
        forward,
        inverse,
    ) by {
        law_nothing_is_cut_short(a, forward, inverse);
    }
}

/// Law: an estimate that can be had does not fail, if the transforms are full and the
/// steps walk over all channels and all candidates.
pub proof fn law_estimate_succeeds<T: Scalar, L, R, F, G>(
    x: Seq<T>,
    fs: i32,
    option: HarvestOption<T>,
    listen: L,
    refine: R,
    forward: F,
    inverse: G,
    e: Fault,
) where
    L: Fn(&Analysis<T>) -> Heard<T>,
    R: Fn(&Analysis<T>, Vec<Vec<T>>, usize) -> Refined<T>,
    F: Fn(Vec<T>) -> Vec<Complex<T>>,
    G: Fn(Vec<Complex<T>>, usize) -> Vec<T>,

    requires
        estimable(x, fs, option, forward, inverse),
        full_transforms(forward, inverse),
        steps_walk(listen, refine, forward, inverse),
    ensures
        !fails(x, fs, option, listen, refine, e),
{
    if fails(x, fs, option, listen, refine, e) {
        law_faults_have_causes(x, fs, option, listen, refine, forward, inverse, e);
        law_no_fault_has_a_cause(x, fs, option, forward, inverse, e);
    }
}

/// Whether `r` are the times and frequencies that the transforms `t` give for `x`.
pub open spec fn estimated_by<T: Scalar>(
    x: Seq<T>,
    fs: i32,
    option: HarvestOption<T>,
    t: Transforms<T>,
    r: (Seq<T>, Seq<T>),
) -> bool {
    let own = frame_number(fs as int, x.len() as int, option.frame_period) as nat;
    exists|a: Analysis<T>|
        {
            &&& a.request == request_for(x.len() as usize, fs, option)
            &&& #[trigger] a.analyses(x)
            &&& r.0 == output_times(a.contour_by(t).len(), own, option.frame_period)
            &&& r.1 == output_contour(a.contour_by(t), own, option.frame_period)
        }
}

/// Times and frequencies of the frames of `x`, all work being done in turn by the
/// two transforms.
pub fn harvest_in_turn<T: Scalar, F, G>(
    x: &[T],
    fs: i32,
    option: &HarvestOption<T>,
    forward: F,
    inverse: G,
) -> (result: Result<(Vec<T>, Vec<T>), Fault>) where
    F: Fn(Vec<T>) -> Vec<Complex<T>> + Copy,
    G: Fn(Vec<Complex<T>>, usize) -> Vec<T> + Copy,

    requires
        forall|v: Vec<T>| call_requires(forward, (v,)),
        forall|v: Vec<Complex<T>>, n: usize| call_requires(inverse, (v, n)),
    ensures
        match result {
            Ok((t, f0)) => {
                &&& possible(x@, fs, *option)
                &&& t@.len() == frame_number(fs as int, x@.len() as int, option.frame_period)
                &&& f0@.len() == t@.len()
                &&& forall|by: Transforms<T>|
                    #[trigger] computes(forward, inverse, by) ==> estimated_by(
                        x@,
                        fs,
                        *option,
                        by,
                        (t@, f0@),
                    )
            },
            Err(e) => has_cause(x@, fs, *option, forward, inverse, e),
        },
{
    let listen = |a: &Analysis<T>| -> (h: Heard<T>)
        requires
            a.well_formed(),
        ensures
            a.hearing(forward, inverse, h),
        { a.hear_all(forward, inverse) };
    let refine = |a: &Analysis<T>, c: Vec<Vec<T>>, n: usize| -> (r: Refined<T>)
        requires
            a.well_formed(),
            shaped(c@, a.plan.f0_length as nat, a.plan.max_candidates as nat),
            n <= a.plan.max_candidates,
        ensures
            a.refining(grid(c@), n as int, forward, r),
        { a.refine_all(&c, n, forward) };
    assert(steps_walk(listen, refine, forward, inverse));
    let result: Result<(Vec<T>, Vec<T>), Fault> = harvest(x, fs, option, listen, refine);
    proof {
        match &result {
            Ok(r) => {
                assert forall|by: Transforms<T>| #[trigger]
                    computes(forward, inverse, by) implies estimated_by(
                    x@,
                    fs,
                    *option,
                    by,
                    (r.0@, r.1@),
                ) by {
                    law_walks_work_item_by_item(listen, refine, forward, inverse, by);
                    lemma_estimate_follows(x@, fs, *option, listen, refine, by, (r.0@, r.1@));
                }
            },
            Err(e) => {
                law_faults_have_causes(x@, fs, *option, listen, refine, forward, inverse, *e);
            },
        }
    }
    result
}

proof fn lemma_estimate_follows<T: Scalar, L, R>(
    x: Seq<T>,
    fs: i32,
    option: HarvestOption<T>,
    listen: L,
    refine: R,
    t: Transforms<T>,
    r: (Seq<T>, Seq<T>),
) where
    L: Fn(&Analysis<T>) -> Heard<T>,
    R: Fn(&Analysis<T>, Vec<Vec<T>>, usize) -> Refined<T>,

    requires
        steps_by(listen, refine, t),
        estimates(x, fs, option, listen, refine, r),
    ensures
        estimated_by(x, fs, option, t, r),
{
    let q = request_for(x.len() as usize, fs, option);
    let own = frame_number(fs as int, x.len() as int, option.frame_period) as nat;
    let basic = choose|basic: Seq<T>|
        {
            &&& #[trigger] leads_to(x, q, listen, refine, basic)
            &&& r.0 == output_times(basic.len(), own, option.frame_period)
            &&& r.1 == output_contour(basic, own, option.frame_period)
        };
    let a = law_contour_follows(x, q, listen, refine, t, basic);
    assert(a.analyses(x));
}

/// Law: the transforms give one result for a signal and a set of options, and no
/// other.
pub proof fn law_transforms_decide<T: Scalar>(
    x: Seq<T>,
    fs: i32,
    option: HarvestOption<T>,
    t: Transforms<T>,
    r: (Seq<T>, Seq<T>),
    s: (Seq<T>, Seq<T>),
)
    requires
        estimated_by(x, fs, option, t, r),
        estimated_by(x, fs, option, t, s),
    ensures
        r == s,
{
    let q = request_for(x.len() as usize, fs, option);
    let own = frame_number(fs as int, x.len() as int, option.frame_period) as nat;
    let a = choose|a: Analysis<T>|
        {
            &&& a.request == q
            &&& #[trigger] a.analyses(x)
            &&& r.0 == output_times(a.contour_by(t).len(), own, option.frame_period)
            &&& r.1 == output_contour(a.contour_by(t), own, option.frame_period)
        };
    let b = choose|b: Analysis<T>|
        {
            &&& b.request == q
            &&& #[trigger] b.analyses(x)
            &&& s.0 == output_times(b.contour_by(t).len(), own, option.frame_period)
            &&& s.1 == output_contour(b.contour_by(t), own, option.frame_period)
        };
    lemma_same_analysis(x, a, b, t);
}

/// Whether `f0` are the frequencies that the transforms `t` give for `x`.
pub open spec fn contour_estimated_by<T: Scalar>(
    x: Seq<T>,
    fs: i32,
    option: HarvestOption<T>,
    t: Transforms<T>,
    f0: Seq<T>,
) -> bool {
    exists|times: Seq<T>| #[trigger] estimated_by(x, fs, option, t, (times, f0))
}

/// Whether `r` is what the transforms `t` give for the array of shape `shape` whose
/// values in order are `flat`: times and frequencies of one signal, or those of one
/// for each row, with the times of the first.
pub open spec fn array_estimated_by<T: Scalar>(
    shape: Seq<usize>,
    flat: Seq<T>,
    fs: i32,
    option: HarvestOption<T>,
    t: Transforms<T>,
    r: Result<ArrayEstimate<T>, ArrayFault>,
) -> bool {
    let n = frame_number(fs as int, shape.last() as int, option.frame_period) as nat;
    match r {
        Ok(ArrayEstimate::Single(times, f0)) => {
            &&& shape.len() == 1
            &&& times@.len() == n
            &&& f0@.len() == n
            &&& estimated_by(flat, fs, option, t, (times@, f0@))
        },
        Ok(ArrayEstimate::Rows(times, f0)) => {
            let seq = shape[1] as int;
            &&& shape.len() == 2
            &&& shaped(times@, shape[0] as nat, n)
            &&& shaped(f0@, shape[0] as nat, n)
            &&& forall|i: int|
                0 <= i < shape[0] ==> contour_estimated_by(
                    row(flat, seq, i),
                    fs,
                    option,
                    t,
                    (#[trigger] f0@[i])@,
                )
            &&& forall|i: int|
                0 <= i < shape[0] ==> estimated_by(
                    row(flat, seq, 0),
                    fs,
                    option,
                    t,
                    ((#[trigger] times@[i])@, f0@[0]@),
                )
        },
        Err(_) => false,
    }
}

/// Law: every array of one or two dimensions that is not empty, and whose signals can
/// be estimated, has its estimate, if the transforms are full and the steps walk over
/// all channels and all candidates; and it is the one that the transforms give.
pub proof fn law_arrays_are_estimated<T: Scalar, L, R, F, G>(
    shape: Seq<usize>,
    flat: Seq<T>,
    fs: i32,
    option: HarvestOption<T>,
    listen: L,
    refine: R,
    forward: F,
    inverse: G,
    t: Transforms<T>,
    r: Result<ArrayEstimate<T>, ArrayFault>,
) where
    L: Fn(&Analysis<T>) -> Heard<T>,
    R: Fn(&Analysis<T>, Vec<Vec<T>>, usize) -> Refined<T>,
    F: Fn(Vec<T>) -> Vec<Complex<T>>,
    G: Fn(Vec<Complex<T>>, usize) -> Vec<T>,

    requires
        shape.len() == 1 || shape.len() == 2,
        shape.last() > 0,
        shape.len() == 1 ==> estimable(flat, fs, option, forward, inverse),
        shape.len() == 2 ==> forall|i: int|
            0 <= i < shape[0] ==> estimable(
                #[trigger] row(flat, shape[1] as int, i),
                fs,
                option,
                forward,
                inverse,
            ),
        full_transforms(forward, inverse),
        computes(forward, inverse, t),
        steps_walk(listen, refine, forward, inverse),
        array_outcome(shape, flat, fs, option, listen, refine, r),
    ensures
        array_estimated_by(shape, flat, fs, option, t, r),
{
    law_walks_work_item_by_item(listen, refine, forward, inverse, t);
    let seq = shape[1] as int;
    match r {
        Ok(ArrayEstimate::Single(times, f0)) => {
            lemma_estimate_follows(flat, fs, option, listen, refine, t, (times@, f0@));
        },
        Ok(ArrayEstimate::Rows(times, f0)) => {
            assert forall|i: int| 0 <= i < shape[0] implies contour_estimated_by(
                row(flat, seq, i),
                fs,
                option,
                t,
                (#[trigger] f0@[i])@,
            ) by {
                let x = row(flat, seq, i);
                assert(estimated(x, fs, option, listen, refine, f0@[i]@));
                let own = choose|own: Seq<T>| #[trigger]
                    estimates(x, fs, option, listen, refine, (own, f0@[i]@));
                lemma_estimate_follows(x, fs, option, listen, refine, t, (own, f0@[i]@));
            }
            assert forall|i: int| 0 <= i < shape[0] implies estimated_by(
                row(flat, seq, 0),
                fs,
                option,
                t,
                ((#[trigger] times@[i])@, f0@[0]@),
            ) by {
                lemma_estimate_follows(
                    row(flat, seq, 0),
                    fs,
                    option,
                    listen,
                    refine,
                    t,
                    (times@[i]@, f0@[0]@),
                );
            }
        },
        Err(ArrayFault::Shape(_)) => {},
        Err(ArrayFault::Estimate(e)) => {
            if shape.len() == 1 {
                law_estimate_succeeds(flat, fs, option, listen, refine, forward, inverse, e);
            } else {
                let i = choose|i: int|
                    0 <= i < shape[0] && fails(
                        #[trigger] row(flat, seq, i),
                        fs,
                        option,
                        listen,
                        refine,
                        e,
                    );
                law_estimate_succeeds(
                    row(flat, seq, i),
                    fs,
                    option,
                    listen,
                    refine,
                    forward,
                    inverse,
                    e,
                );
            }
        },
    }
}

} // verus!
