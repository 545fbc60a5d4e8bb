//! The estimator from end to end. The two steps that need transforms, and that
//! work item by item, are handed in as functions, so that a caller may spread
//! them over threads: one hears all channels, one refines all frames.
use crate::analysis::{Analysis, Fault};
use crate::basics::{grid, rounded};
use crate::harvest::{
    HarvestOption, Request, count_frames, countable, dimension_ratio, final_contour, frame_number,
    law_output_selects, output_contour, output_times, resample,
};
use crate::scalar::Scalar;
use vstd::prelude::*;

verus! {

/// Whether `rows` is a matrix of `n` rows, each `width` long.
pub open spec fn shaped<T>(rows: Seq<Vec<T>>, n: nat, width: nat) -> bool {
    rows.len() == n && forall|k: int| 0 <= k < n ==> (#[trigger] rows[k])@.len() == width
}

/// Tests the shape of a matrix.
pub fn has_shape<T>(rows: &Vec<Vec<T>>, n: usize, width: usize) -> (ok: bool)
    ensures
        ok == shaped(rows@, n as nat, width as nat),
{
    if rows.len() != n {
        return false;
    }
    for k in 0..n
        invariant
            n == rows@.len(),
            forall|j: int| 0 <= j < k ==> (#[trigger] rows@[j])@.len() == width,
    {
        if rows[k].len() != width {
            return false;
        }
    }
    true
}

/// The contours of all channels, as the step that hears them returns them.
pub type Heard<T> = Result<Vec<Vec<T>>, Fault>;

/// The candidates of all frames and their scores, as the step that refines them
/// returns them.
pub type Refined<T> = Result<(Vec<Vec<T>>, Vec<Vec<T>>), Fault>;

/// The contours heard are of the right shape.
pub open spec fn well_heard<T: Scalar>(a: Analysis<T>, raw: Vec<Vec<T>>) -> bool {
    shaped(raw@, a.channels(), a.plan.f0_length as nat)
}

/// `c` and `n` are the candidates that the contours `raw` give, and their number.
pub open spec fn collected<T: Scalar>(
    a: Analysis<T>,
    raw: Vec<Vec<T>>,
    c: Vec<Vec<T>>,
    n: usize,
) -> bool {
    grid(c@) == a.candidate_grid(grid(raw@)) && n == 7 * a.own_number(grid(raw@))
}

/// The candidates and scores refined are of the right shape.
pub open spec fn well_refined<T: Scalar>(a: Analysis<T>, r: (Vec<Vec<T>>, Vec<Vec<T>>)) -> bool {
    &&& shaped(r.0@, a.plan.f0_length as nat, a.plan.max_candidates as nat)
    &&& shaped(r.1@, a.plan.f0_length as nat, a.plan.max_candidates as nat)
}

/// Whether the steps may lead from `x` to the contour `f0`.
pub open spec fn leads_to<T: Scalar, L, R>(
    x: Seq<T>,
    request: Request<T>,
    listen: L,
    refine: R,
    f0: Seq<T>,
) -> bool where
    L: Fn(&Analysis<T>) -> Heard<T>,
    R: Fn(&Analysis<T>, Vec<Vec<T>>, usize) -> Refined<T>,
 {
    exists|
        a: Analysis<T>,
        raw: Vec<Vec<T>>,
        c: Vec<Vec<T>>,
        n: usize,
        r: (Vec<Vec<T>>, Vec<Vec<T>>),
    |
        {
            &&& a.request == request && a.analyses(x)
            &&& #[trigger] call_ensures(listen, (&a,), Ok::<Vec<Vec<T>>, Fault>(raw))
            &&& well_heard(a, raw)
            &&& collected(a, raw, c, n)
            &&& #[trigger] call_ensures(
                refine,
                (&a, c, n),
                Ok::<(Vec<Vec<T>>, Vec<Vec<T>>), Fault>(r),
            )
            &&& well_refined(a, r)
            &&& f0 == final_contour(grid(r.0@), grid(r.1@), a.plan.f0_length as nat, n as nat)
        }
}

/// Whether the step that hears may end the analysis of `x` with fault `e`.
pub open spec fn hearing_fails<T: Scalar, L>(
    x: Seq<T>,
    request: Request<T>,
    listen: L,
    e: Fault,
) -> bool where L: Fn(&Analysis<T>) -> Heard<T> {
    exists|a: Analysis<T>, h: Heard<T>|
        {
            &&& a.request == request && a.analyses(x)
            &&& #[trigger] call_ensures(listen, (&a,), h)
            &&& match h {
                Ok(raw) => !well_heard(a, raw) && e is Shape,
                Err(fault) => e == fault,
            }
        }
}

/// Whether the step that refines may end the analysis of `x` with fault `e`.
pub open spec fn refining_fails<T: Scalar, L, R>(
    x: Seq<T>,
    request: Request<T>,
    listen: L,
    refine: R,
    e: Fault,
) -> bool where
    L: Fn(&Analysis<T>) -> Heard<T>,
    R: Fn(&Analysis<T>, Vec<Vec<T>>, usize) -> Refined<T>,
 {
    exists|a: Analysis<T>, raw: Vec<Vec<T>>, c: Vec<Vec<T>>, n: usize, r: Refined<T>|
        {
            &&& a.request == request && a.analyses(x)
            &&& #[trigger] call_ensures(listen, (&a,), Ok::<Vec<Vec<T>>, Fault>(raw))
            &&& well_heard(a, raw)
            &&& collected(a, raw, c, n)
            &&& #[trigger] call_ensures(refine, (&a, c, n), r)
            &&& match r {
                Ok(p) => !well_refined(a, p) && e is Shape,
                Err(fault) => e == fault,
            }
        }
}

/// The contour of `x`: the waveform is prepared, all channels are heard, their
/// candidates are collected and refined, and the contour is drawn from them.
pub fn harvest_general_body<T: Scalar, L, R>(
    x: &[T],
    request: Request<T>,
    listen: L,
    refine: R,
) -> (result: Result<Vec<T>, Fault>) where
    L: Fn(&Analysis<T>) -> Heard<T>,
    R: Fn(&Analysis<T>, Vec<Vec<T>>, usize) -> Refined<T>,

    requires
        x@.len() == request.x_length,
        forall|a: &Analysis<T>| a.analyses(x@) ==> call_requires(listen, (a,)),
        forall|a: &Analysis<T>, c: Vec<Vec<T>>, n: usize|
            a.analyses(x@) && shaped(c@, a.plan.f0_length as nat, a.plan.max_candidates as nat) && n
                <= a.plan.max_candidates ==> call_requires(refine, (a, c, n)),
    ensures
        match result {
            Ok(f0) => {
                &&& request.feasible()
                &&& f0@.len() == request.frames()
                &&& leads_to(x@, request, listen, refine, f0@)
            },
            Err(e) => {
                ||| !request.feasible() && e is OutOfRange
                ||| request.feasible() && hearing_fails(x@, request, listen, e)
                ||| request.feasible() && refining_fails(x@, request, listen, refine, e)
            },
        },
{
    let analysis: Analysis<T> = match Analysis::begin(x, request) {
        Some(a) => a,
        None => {
            return Err(Fault::OutOfRange);
        },
    };
    let f0_length: usize = analysis.plan.f0_length;
    let max_candidates: usize = analysis.plan.max_candidates;
    let heard: Heard<T> = listen(&analysis);
    let raw: Vec<Vec<T>> = match heard {
        Ok(raw) => raw,
        Err(e) => {
            return Err(e);
        },
    };
    if !has_shape(&raw, analysis.plan.boundary_f0_list.len(), f0_length) {
        return Err(Fault::Shape);
    }
    let (candidates, number_of_candidates) = analysis.candidates(&raw);
    let ghost c = candidates;
    let refined: Refined<T> = refine(&analysis, candidates, number_of_candidates);
    assert(collected(analysis, raw, c, number_of_candidates));
    let ghost r = refined;
    let (mut f0_candidates, mut f0_scores) = match refined {
        Ok(p) => p,
        Err(e) => {
            return Err(e);
        },
    };
    if !has_shape(&f0_candidates, f0_length, max_candidates) || !has_shape(
        &f0_scores,
        f0_length,
        max_candidates,
    ) {
        assert(r == Ok::<(Vec<Vec<T>>, Vec<Vec<T>>), Fault>((f0_candidates, f0_scores)));
        return Err(Fault::Shape);
    }
    let ghost p = (f0_candidates, f0_scores);
    assert(r == Ok::<(Vec<Vec<T>>, Vec<Vec<T>>), Fault>(p));
    assert(well_refined(analysis, p));
    let f0: Vec<T> = analysis.conclude(&mut f0_candidates, &mut f0_scores, number_of_candidates);
    Ok(f0)
}

/// The analysis that the options ask for: frames one millisecond apart, forty
/// channels for each octave, at a rate of about 8000 per second.
pub open spec fn request_for<T: Scalar>(
    x_length: usize,
    fs: i32,
    option: HarvestOption<T>,
) -> Request<T> {
    Request {
        x_length,
        fs,
        frame_period: 1,
        f0_floor: option.f0_floor,
        f0_ceil: option.f0_ceil,
        channels_in_octave: T::of_int(40),
        speed: rounded(T::of_int(fs as int) / T::of_int(8000)),
    }
}

/// Whether `r` are the times and frequencies of the frames asked for, taken from
/// a contour that the steps may lead to.
pub open spec fn estimates<T: Scalar, L, R>(
    x: Seq<T>,
    fs: i32,
    option: HarvestOption<T>,
    listen: L,
    refine: R,
    r: (Seq<T>, Seq<T>),
) -> bool where
    L: Fn(&Analysis<T>) -> Heard<T>,
    R: Fn(&Analysis<T>, Vec<Vec<T>>, usize) -> Refined<T>,
 {
    let own = frame_number(fs as int, x.len() as int, option.frame_period) as nat;
    exists|basic: Seq<T>|
        {
            &&& #[trigger] leads_to(
                x,
                request_for(x.len() as usize, fs, option),
                listen,
                refine,
                basic,
            )
            &&& r.0 == output_times(basic.len(), own, option.frame_period)
            &&& r.1 == output_contour(basic, own, option.frame_period)
        }
}

/// Whether all lengths that `x` and the options ask for are in range.
pub open spec fn possible<T: Scalar>(x: Seq<T>, fs: i32, option: HarvestOption<T>) -> bool {
    countable(fs as int, x.len() as int, option.frame_period) && request_for(
        x.len() as usize,
        fs,
        option,
    ).feasible()
}

/// Whether the estimate of `x` may end with fault `e`.
pub open spec fn fails<T: Scalar, L, R>(
    x: Seq<T>,
    fs: i32,
    option: HarvestOption<T>,
    listen: L,
    refine: R,
    e: Fault,
) -> bool where
    L: Fn(&Analysis<T>) -> Heard<T>,
    R: Fn(&Analysis<T>, Vec<Vec<T>>, usize) -> Refined<T>,
 {
    let q = request_for(x.len() as usize, fs, option);
    ||| !possible(x, fs, option) && e is OutOfRange
    ||| possible(x, fs, option) && hearing_fails(x, q, listen, e)
    ||| possible(x, fs, option) && refining_fails(x, q, listen, refine, e)
}

/// Times and frequencies of the frames of `x`, which was sampled `fs` times a
/// second.
pub fn harvest<T: Scalar, L, R>(
    x: &[T],
    fs: i32,
    option: &HarvestOption<T>,
    listen: L,
    refine: R,
) -> (result: Result<(Vec<T>, Vec<T>), Fault>) where
    L: Fn(&Analysis<T>) -> Heard<T>,
    R: Fn(&Analysis<T>, Vec<Vec<T>>, usize) -> Refined<T>,

    requires
        forall|a: &Analysis<T>| a.analyses(x@) ==> call_requires(listen, (a,)),
        forall|a: &Analysis<T>, c: Vec<Vec<T>>, n: usize|
            a.analyses(x@) && shaped(c@, a.plan.f0_length as nat, a.plan.max_candidates as nat) && n
                <= a.plan.max_candidates ==> call_requires(refine, (a, c, n)),
    ensures
        match result {
            Ok((t, f0)) => {
                &&& possible(x@, fs, *option)
                &&& t@.len() == frame_number(fs as int, x@.len() as int, option.frame_period)
                &&& f0@.len() == t@.len()
                &&& estimates(x@, fs, *option, listen, refine, (t@, f0@))
            },
            Err(e) => fails(x@, fs, *option, listen, refine, e),
        },
{
    let x_length: usize = x.len();
    let ghost q = request_for(x_length, fs, *option);
    match count_frames(fs, x_length, option.frame_period) {
        Some(_) => {},
        None => {
            return Err(Fault::OutOfRange);
        },
    }
    let request: Request<T> = Request {
        x_length,
        fs,
        frame_period: 1,
        f0_floor: option.f0_floor,
        f0_ceil: option.f0_ceil,
        channels_in_octave: T::from_int(40),
        speed: dimension_ratio::<T>(fs),
    };
    assert(request == q);
    assert(q == request_for(x@.len() as usize, fs, *option));
    match harvest_general_body(x, request, listen, refine) {
        Ok(basic_f0) => {
            assert(leads_to(x@, q, listen, refine, basic_f0@));
            let (t, f0) = resample(&basic_f0, fs, x_length, option);
            proof {
                let own = frame_number(fs as int, x_length as int, option.frame_period) as nat;
                law_output_selects(basic_f0@, own, option.frame_period, 0);
                assert(request_for(x@.len() as usize, fs, *option) == q);
                assert(t@ == output_times(basic_f0@.len(), own, option.frame_period));
                assert(f0@ == output_contour(basic_f0@, own, option.frame_period));
                assert(estimates(x@, fs, *option, listen, refine, (t@, f0@)));
            }
            Ok((t, f0))
        },
        Err(e) => Err(e),
    }
}

} // verus!
