//! What the estimator computes, as a function of the transforms: the result does
//! not depend on how the work is spread, nor on what was computed before.
use crate::analysis::{Analysis, Fault, inverts, transforms};
use crate::basics::{grid, lemma_least_power, zero};
use crate::batch::estimated;
use crate::estimator::{
    Heard, Refined, collected, estimates, leads_to, request_for, well_heard, well_refined,
};
use crate::harvest::{
    HarvestOption, Request, final_contour, frame_number, frame_times, milliseconds_come_back,
    nearest_frame, output_contour, output_times, unit_period,
};
use crate::refine::{diff_frame, gated, main_frame, mean_f0, transform_length, window_length};
use crate::scalar::Scalar;
use crate::spectrum::{Complex, fitted, products, unscaled};
use vstd::prelude::*;

verus! {

/// Two transforms as functions: from a signal to its spectrum, and from a
/// spectrum and a length to a signal.
#[verifier::reject_recursive_types(T)]
pub struct Transforms<T> {
    pub forward: spec_fn(Seq<T>) -> Seq<Complex<T>>,
    pub inverse: spec_fn(Seq<Complex<T>>, usize) -> Seq<T>,
}

/// Whether `forward` and `inverse` compute these functions.
pub open spec fn computes<T, F, G>(forward: F, inverse: G, t: Transforms<T>) -> bool where
    F: Fn(Vec<T>) -> Vec<Complex<T>>,
    G: Fn(Vec<Complex<T>>, usize) -> Vec<T>,
 {
    &&& forall|v: Vec<T>, w: Vec<Complex<T>>| #[trigger]
        call_ensures(forward, (v,), w) ==> w@ == (t.forward)(v@)
    &&& forall|v: Vec<Complex<T>>, n: usize, w: Vec<T>| #[trigger]
        call_ensures(inverse, (v, n), w) ==> w@ == (t.inverse)(v@, n)
}

/// Whether the inverse transform of length `n`, once scaled, undoes the forward
/// one, up to the tolerance `near`.
pub open spec fn undone<T: Scalar>(
    t: Transforms<T>,
    n: usize,
    near: spec_fn(T, T) -> bool,
) -> bool {
    forall|v: Seq<T>, i: int|
        v.len() == n && 0 <= i < n ==> near(
            (t.inverse)((t.forward)(v), n)[i] * (T::of_int(1) / T::of_int(n as int)),
            #[trigger] v[i],
        )
}

/// Law: where the transforms undo each other, a signal that is fitted to length
/// `n`, transformed, transformed back and scaled comes back, with zeros where it
/// was too short; what lies beyond `n` is left alone.
pub proof fn law_round_trip<T: Scalar, F, G>(
    x: Seq<T>,
    n: usize,
    forward: F,
    inverse: G,
    t: Transforms<T>,
    near: spec_fn(T, T) -> bool,
    s: Seq<Complex<T>>,
    time: Seq<T>,
    out: Seq<T>,
    i: int,
) where F: Fn(Vec<T>) -> Vec<Complex<T>>, G: Fn(Vec<Complex<T>>, usize) -> Vec<T>
    requires
        computes(forward, inverse, t),
        undone(t, n, near),
        transforms(forward, fitted(x, n as nat), s),
        inverts(inverse, s, n, time),
        0 <= i < out.len(),
    ensures
        i < n && i < x.len() ==> near(unscaled(time, n as int, out)[i], x[i]),
        x.len() <= i < n ==> near(unscaled(time, n as int, out)[i], zero::<T>()),
        n <= i ==> unscaled(time, n as int, out)[i] == out[i],
{
    let v = fitted(x, n as nat);
    assert(s == (t.forward)(v));
    assert(time == (t.inverse)(s, n));
    if i < n {
        assert(near(time[i] * (T::of_int(1) / T::of_int(n as int)), v[i]));
    }
}

impl<T: Scalar> Analysis<T> {
    /// The contour of channel `i` by the transforms `t`.
    pub open spec fn channel_by(&self, t: Transforms<T>, i: int) -> Seq<T> {
        let s = products((t.forward)(self.y@), (t.forward)(self.channel_filter(i)));
        self.channel_contour(i, (t.inverse)(s, self.plan.fft_size))
    }

    /// The contours of all channels by the transforms `t`.
    pub open spec fn channels_by(&self, t: Transforms<T>) -> Seq<Seq<T>> {
        Seq::new(self.channels(), |i: int| self.channel_by(t, i))
    }

    /// Frequency and score of the candidate `f0` of frame `k` by the transforms
    /// `t`.
    pub open spec fn refined_by(&self, t: Transforms<T>, k: int, f0: T) -> (T, T) {
        let fs = self.plan.actual_fs;
        let at = self.temporal_positions@[k];
        if f0 <= zero::<T>() {
            (zero::<T>(), zero::<T>())
        } else {
            gated(
                mean_f0(
                    (t.forward)(main_frame(self.samples(), fs, at, f0)),
                    (t.forward)(diff_frame(self.samples(), fs, at, f0)),
                    transform_length(window_length(fs, f0)),
                    fs,
                    f0,
                ),
                self.request.f0_floor,
                self.request.f0_ceil,
            )
        }
    }

    /// The candidates of all frames, the first `number` of each refined by the
    /// transforms `t`.
    pub open spec fn candidates_by(
        &self,
        t: Transforms<T>,
        c: Seq<Seq<T>>,
        number: int,
    ) -> Seq<Seq<T>> {
        Seq::new(
            c.len(),
            |k: int|
                Seq::new(
                    c[k].len(),
                    |j: int|
                        if j < number {
                            self.refined_by(t, k, c[k][j]).0
                        } else {
                            c[k][j]
                        },
                ),
        )
    }

    /// The scores of all frames by the transforms `t`.
    pub open spec fn scores_by(
        &self,
        t: Transforms<T>,
        c: Seq<Seq<T>>,
        number: int,
    ) -> Seq<Seq<T>> {
        Seq::new(
            c.len(),
            |k: int|
                Seq::new(
                    c[k].len(),
                    |j: int|
                        if j < number {
                            self.refined_by(t, k, c[k][j]).1
                        } else {
                            zero::<T>()
                        },
                ),
        )
    }
}

/// Law: the contours of all channels are those that each channel has by itself,
/// whatever the order in which they are worked out.
pub proof fn law_channels_are_independent<T: Scalar, F, G>(
    a: Analysis<T>,
    forward: F,
    inverse: G,
    t: Transforms<T>,
    raw: Seq<Seq<T>>,
) where F: Fn(Vec<T>) -> Vec<Complex<T>>, G: Fn(Vec<Complex<T>>, usize) -> Vec<T>
    requires
        computes(forward, inverse, t),
        a.hears_all(forward, inverse, raw),
    ensures
        raw == a.channels_by(t),
{
    let s = choose|s: Seq<Complex<T>>|
        {
            &&& #[trigger] transforms(forward, a.y@, s)
            &&& raw.len() == a.channels()
            &&& forall|i: int|
                0 <= i < raw.len() ==> a.hears(i, s, forward, inverse, #[trigger] raw[i])
        };
    assert(s == (t.forward)(a.y@));
    assert forall|i: int| 0 <= i < raw.len() implies #[trigger] raw[i] == a.channel_by(t, i) by {
        assert(a.hears(i, s, forward, inverse, raw[i]));
        let (h, time) = choose|h: Seq<Complex<T>>, time: Seq<T>|
            {
                &&& #[trigger] transforms(forward, a.channel_filter(i), h)
                &&& #[trigger] inverts(inverse, products(s, h), a.plan.fft_size, time)
                &&& raw[i] == a.channel_contour(i, time)
            };
        assert(h == (t.forward)(a.channel_filter(i)));
        assert(time == (t.inverse)(products(s, h), a.plan.fft_size));
    }
    assert(raw =~= a.channels_by(t));
}

/// Law: the refined candidates of all frames are those that each candidate has by
/// itself; candidates beyond the first `number` stay.
pub proof fn law_frames_are_independent<T: Scalar, F, G>(
    a: Analysis<T>,
    forward: F,
    inverse: G,
    t: Transforms<T>,
    c: Seq<Seq<T>>,
    number: int,
    r: (Seq<Seq<T>>, Seq<Seq<T>>),
) where F: Fn(Vec<T>) -> Vec<Complex<T>>, G: Fn(Vec<Complex<T>>, usize) -> Vec<T>
    requires
        computes(forward, inverse, t),
        a.refines_all(c, number, forward, r),
    ensures
        r.0 == a.candidates_by(t, c, number),
        r.1 == a.scores_by(t, c, number),
{
    assert forall|k: int| 0 <= k < c.len() implies #[trigger] r.0[k] == a.candidates_by(
        t,
        c,
        number,
    )[k] && r.1[k] == a.scores_by(t, c, number)[k] by {
        assert(a.refines_frame(k, c[k], number, forward, (r.0[k], r.1[k])));
        assert forall|j: int| 0 <= j < c[k].len() implies #[trigger] r.0[k][j] == a.candidates_by(
            t,
            c,
            number,
        )[k][j] && r.1[k][j] == a.scores_by(t, c, number)[k][j] by {
            if j < number {
                lemma_refined(a, forward, inverse, t, k, c[k][j], (r.0[k][j], r.1[k][j]));
            }
        }
        assert(r.0[k] =~= a.candidates_by(t, c, number)[k]);
        assert(r.1[k] =~= a.scores_by(t, c, number)[k]);
    }
    assert(r.0 =~= a.candidates_by(t, c, number));
    assert(r.1 =~= a.scores_by(t, c, number));
}

proof fn lemma_refined<T: Scalar, F, G>(
    a: Analysis<T>,
    forward: F,
    inverse: G,
    t: Transforms<T>,
    k: int,
    f0: T,
    r: (T, T),
) where F: Fn(Vec<T>) -> Vec<Complex<T>>, G: Fn(Vec<Complex<T>>, usize) -> Vec<T>
    requires
        computes(forward, inverse, t),
        a.refines(k, f0, forward, r),
    ensures
        r == a.refined_by(t, k, f0),
{
}

impl<T: Scalar> Analysis<T> {
    /// How many candidates of each frame are refined, by the transforms `t`.
    pub open spec fn number_by(&self, t: Transforms<T>) -> int {
        7 * self.own_number(self.channels_by(t)) as int
    }

    /// The contour of the whole analysis by the transforms `t`.
    pub open spec fn contour_by(&self, t: Transforms<T>) -> Seq<T> {
        let c = self.candidate_grid(self.channels_by(t));
        let n = self.number_by(t);
        final_contour(
            self.candidates_by(t, c, n),
            self.scores_by(t, c, n),
            self.plan.f0_length as nat,
            n as nat,
        )
    }
}

/// Whether the two steps work item by item with the transforms `t`.
pub open spec fn steps_by<T: Scalar, L, R>(listen: L, refine: R, t: Transforms<T>) -> bool where
    L: Fn(&Analysis<T>) -> Heard<T>,
    R: Fn(&Analysis<T>, Vec<Vec<T>>, usize) -> Refined<T>,
 {
    &&& forall|a: Analysis<T>, raw: Vec<Vec<T>>|
        a.well_formed() && #[trigger] call_ensures(
            listen,
            (&a,),
            Ok::<Vec<Vec<T>>, Fault>(raw),
        ) ==> grid(raw@) == a.channels_by(t)
    &&& forall|a: Analysis<T>, c: Vec<Vec<T>>, n: usize, r: (Vec<Vec<T>>, Vec<Vec<T>>)|
        a.well_formed() && #[trigger] call_ensures(
            refine,
            (&a, c, n),
            Ok::<(Vec<Vec<T>>, Vec<Vec<T>>), Fault>(r),
        ) ==> grid(r.0@) == a.candidates_by(t, grid(c@), n as int) && grid(r.1@) == a.scores_by(
            t,
            grid(c@),
            n as int,
        )
}

/// Whether the two steps do, by `forward` and `inverse`, what
/// [`Analysis::hear_all`] and [`Analysis::refine_all`] do.
pub open spec fn steps_walk<T: Scalar, L, R, F, G>(
    listen: L,
    refine: R,
    forward: F,
    inverse: G,
) -> bool where
    L: Fn(&Analysis<T>) -> Heard<T>,
    R: Fn(&Analysis<T>, Vec<Vec<T>>, usize) -> Refined<T>,
    F: Fn(Vec<T>) -> Vec<Complex<T>>,
    G: Fn(Vec<Complex<T>>, usize) -> Vec<T>,
 {
    &&& forall|a: Analysis<T>, h: Heard<T>|
        a.well_formed() && #[trigger] call_ensures(listen, (&a,), h) ==> a.hearing(
            forward,
            inverse,
            h,
        )
    &&& forall|a: Analysis<T>, c: Vec<Vec<T>>, n: usize, r: Refined<T>|
        a.well_formed() && #[trigger] call_ensures(refine, (&a, c, n), r) ==> a.refining(
            grid(c@),
            n as int,
            forward,
            r,
        )
}

/// Law: steps that walk over all channels and all frames work item by item.
pub proof fn law_walks_work_item_by_item<T: Scalar, L, R, F, G>(
    listen: L,
    refine: R,
    forward: F,
    inverse: G,
    t: Transforms<T>,
) where
    L: Fn(&Analysis<T>) -> Heard<T>,
    R: Fn(&Analysis<T>, Vec<Vec<T>>, usize) -> Refined<T>,
    F: Fn(Vec<T>) -> Vec<Complex<T>>,
    G: Fn(Vec<Complex<T>>, usize) -> Vec<T>,

    requires
        computes(forward, inverse, t),
        steps_walk(listen, refine, forward, inverse),
    ensures
        steps_by(listen, refine, t),
{
    assert forall|a: Analysis<T>, raw: Vec<Vec<T>>|
        a.well_formed() && #[trigger] call_ensures(
            listen,
            (&a,),
            Ok::<Vec<Vec<T>>, Fault>(raw),
        ) implies grid(raw@) == a.channels_by(t) by {
        law_channels_are_independent(a, forward, inverse, t, grid(raw@));
    }
    assert forall|a: Analysis<T>, c: Vec<Vec<T>>, n: usize, r: (Vec<Vec<T>>, Vec<Vec<T>>)|
        a.well_formed() && #[trigger] call_ensures(
            refine,
            (&a, c, n),
            Ok::<(Vec<Vec<T>>, Vec<Vec<T>>), Fault>(r),
        ) implies grid(r.0@) == a.candidates_by(t, grid(c@), n as int) && grid(r.1@) == a.scores_by(
        t,
        grid(c@),
        n as int,
    ) by {
        law_frames_are_independent(
            a,
            forward,
            inverse,
            t,
            grid(c@),
            n as int,
            (grid(r.0@), grid(r.1@)),
        );
    }
}

/// Law: steps that work item by item lead to the contour that the transforms
/// give, and to no other.
pub proof fn law_contour_follows<T: Scalar, L, R>(
    x: Seq<T>,
    request: Request<T>,
    listen: L,
    refine: R,
    t: Transforms<T>,
    f0: Seq<T>,
) -> (a: Analysis<T>) where
    L: Fn(&Analysis<T>) -> Heard<T>,
    R: Fn(&Analysis<T>, Vec<Vec<T>>, usize) -> Refined<T>,

    requires
        steps_by(listen, refine, t),
        leads_to(x, request, listen, refine, f0),
    ensures
        a.request == request,
        a.analyses(x),
        f0 == a.contour_by(t),
{
    let (a, raw, c, n, r) = choose|
        a: Analysis<T>,
        raw: Vec<Vec<T>>,
        c: Vec<Vec<T>>,
        n: usize,
        r: (Vec<Vec<T>>, Vec<Vec<T>>),
    |
        {
            &&& a.request == request && a.analyses(x)
            &&& #[trigger] call_ensures(listen, (&a,), Ok::<Vec<Vec<T>>, Fault>(raw))
            &&& well_heard(a, raw)
            &&& collected(a, raw, c, n)
            &&& #[trigger] call_ensures(
                refine,
                (&a, c, n),
                Ok::<(Vec<Vec<T>>, Vec<Vec<T>>), Fault>(r),
            )
            &&& well_refined(a, r)
            &&& f0 == final_contour(grid(r.0@), grid(r.1@), a.plan.f0_length as nat, n as nat)
        };
    a
}

/// The two requests ask for the same but for the speed, and the speeds reduce the
/// rate alike.
pub open spec fn same_but_for_speed<T: Scalar>(q: Request<T>, p: Request<T>) -> bool {
    &&& q.x_length == p.x_length
    &&& q.fs == p.fs
    &&& q.frame_period == p.frame_period
    &&& q.f0_floor == p.f0_floor
    &&& q.f0_ceil == p.f0_ceil
    &&& q.channels_in_octave == p.channels_in_octave
    &&& q.ratio() == p.ratio()
}

/// Analyses of one signal for requests that differ in speed alone agree in
/// everything that the steps use.
pub proof fn lemma_same_analysis<T: Scalar>(
    x: Seq<T>,
    a: Analysis<T>,
    b: Analysis<T>,
    t: Transforms<T>,
)
    requires
        a.analyses(x),
        b.analyses(x),
        same_but_for_speed(a.request, b.request),
    ensures
        a.temporal_positions@ == b.temporal_positions@,
        a.contour_by(t) == b.contour_by(t),
{
    lemma_least_power(a.plan.fft_size as int, a.request.room());
    lemma_least_power(b.plan.fft_size as int, b.request.room());
    assert(a.plan.boundary_f0_list@ =~= b.plan.boundary_f0_list@);
    assert forall|i: int| 0 <= i < a.channels() implies #[trigger] a.channel_by(t, i)
        == b.channel_by(t, i) by {}
    assert(a.channels_by(t) =~= b.channels_by(t));
    let c = a.candidate_grid(a.channels_by(t));
    let n = a.number_by(t);
    assert forall|k: int, f0: T| #[trigger] a.refined_by(t, k, f0) == b.refined_by(t, k, f0) by {}
    assert(a.candidates_by(t, c, n) =~~= b.candidates_by(t, c, n));
    assert(a.scores_by(t, c, n) =~~= b.scores_by(t, c, n));
}

/// Law: speeds that reduce the rate alike give the same frame times and the same
/// contour; with one and the same request, so does any way of spreading the work.
pub proof fn law_speed_is_clamped<T: Scalar, L, R, M, S>(
    x: Seq<T>,
    q: Request<T>,
    p: Request<T>,
    listen: L,
    refine: R,
    other_listen: M,
    other_refine: S,
    t: Transforms<T>,
    f0: Seq<T>,
    g0: Seq<T>,
) where
    L: Fn(&Analysis<T>) -> Heard<T>,
    R: Fn(&Analysis<T>, Vec<Vec<T>>, usize) -> Refined<T>,
    M: Fn(&Analysis<T>) -> Heard<T>,
    S: Fn(&Analysis<T>, Vec<Vec<T>>, usize) -> Refined<T>,

    requires
        same_but_for_speed(q, p),
        steps_by(listen, refine, t),
        steps_by(other_listen, other_refine, t),
        leads_to(x, q, listen, refine, f0),
        leads_to(x, p, other_listen, other_refine, g0),
    ensures
        f0 == g0,
        forall|a: Analysis<T>, b: Analysis<T>|
            a.request == q && b.request == p && #[trigger] a.analyses(x) && #[trigger] b.analyses(x)
                ==> a.temporal_positions@ == b.temporal_positions@,
{
    let a = law_contour_follows(x, q, listen, refine, t, f0);
    let b = law_contour_follows(x, p, other_listen, other_refine, t, g0);
    lemma_same_analysis(x, a, b, t);
    assert forall|a: Analysis<T>, b: Analysis<T>|
        a.request == q && b.request == p && #[trigger] a.analyses(x) && #[trigger] b.analyses(
            x,
        ) implies a.temporal_positions@ == b.temporal_positions@ by {
        lemma_same_analysis(x, a, b, t);
    }
}

/// Law: any two estimates of one signal with one set of options are identical,
/// however the steps spread their work and whatever was estimated before.
pub proof fn law_estimates_agree<T: Scalar, L, R, M, S>(
    x: Seq<T>,
    fs: i32,
    option: HarvestOption<T>,
    listen: L,
    refine: R,
    other_listen: M,
    other_refine: S,
    t: Transforms<T>,
    r: (Seq<T>, Seq<T>),
    s: (Seq<T>, Seq<T>),
) where
    L: Fn(&Analysis<T>) -> Heard<T>,
    R: Fn(&Analysis<T>, Vec<Vec<T>>, usize) -> Refined<T>,
    M: Fn(&Analysis<T>) -> Heard<T>,
    S: Fn(&Analysis<T>, Vec<Vec<T>>, usize) -> Refined<T>,

    requires
        steps_by(listen, refine, t),
        steps_by(other_listen, other_refine, t),
        estimates(x, fs, option, listen, refine, r),
        estimates(x, fs, option, other_listen, other_refine, s),
    ensures
        r == s,
{
    let q = request_for(x.len() as usize, fs, option);
    let own = frame_number(fs as int, x.len() as int, option.frame_period) as nat;
    let f = choose|f: Seq<T>|
        {
            &&& #[trigger] leads_to(x, q, listen, refine, f)
            &&& r.0 == output_times(f.len(), own, option.frame_period)
            &&& r.1 == output_contour(f, own, option.frame_period)
        };
    let g = choose|g: Seq<T>|
        {
            &&& #[trigger] leads_to(x, q, other_listen, other_refine, g)
            &&& s.0 == output_times(g.len(), own, option.frame_period)
            &&& s.1 == output_contour(g, own, option.frame_period)
        };
    law_speed_is_clamped(x, q, q, listen, refine, other_listen, other_refine, t, f, g);
}

/// Law: a row of a batch has the frequencies that any other estimate of its signal
/// has.
pub proof fn law_rows_agree_with_single_estimates<T: Scalar, L, R, M, S>(
    x: Seq<T>,
    fs: i32,
    option: HarvestOption<T>,
    listen: L,
    refine: R,
    other_listen: M,
    other_refine: S,
    t: Transforms<T>,
    f0: Seq<T>,
    r: (Seq<T>, Seq<T>),
) where
    L: Fn(&Analysis<T>) -> Heard<T>,
    R: Fn(&Analysis<T>, Vec<Vec<T>>, usize) -> Refined<T>,
    M: Fn(&Analysis<T>) -> Heard<T>,
    S: Fn(&Analysis<T>, Vec<Vec<T>>, usize) -> Refined<T>,

    requires
        steps_by(listen, refine, t),
        steps_by(other_listen, other_refine, t),
        estimated(x, fs, option, listen, refine, f0),
        estimates(x, fs, option, other_listen, other_refine, r),
    ensures
        f0 == r.1,
{
    let times = choose|times: Seq<T>| #[trigger]
        estimates(x, fs, option, listen, refine, (times, f0));
    law_estimates_agree(
        x,
        fs,
        option,
        listen,
        refine,
        other_listen,
        other_refine,
        t,
        (times, f0),
        r,
    );
}

/// Law: the frames of any period other than one millisecond take their frequency
/// from the estimate with frames one millisecond apart, at the frame nearest to
/// their time. This holds where a period of 1 counts as one millisecond, and also
/// where it does not but each of these frames is the nearest to its own time.
pub proof fn law_coarser_frames_pick_from_finer<T: Scalar, L, R, M, S>(
    x: Seq<T>,
    fs: i32,
    option: HarvestOption<T>,
    fine: HarvestOption<T>,
    listen: L,
    refine: R,
    other_listen: M,
    other_refine: S,
    t: Transforms<T>,
    r: (Seq<T>, Seq<T>),
    base: (Seq<T>, Seq<T>),
    i: int,
) where
    L: Fn(&Analysis<T>) -> Heard<T>,
    R: Fn(&Analysis<T>, Vec<Vec<T>>, usize) -> Refined<T>,
    M: Fn(&Analysis<T>) -> Heard<T>,
    S: Fn(&Analysis<T>, Vec<Vec<T>>, usize) -> Refined<T>,

    requires
        steps_by(listen, refine, t),
        steps_by(other_listen, other_refine, t),
        fine.f0_floor == option.f0_floor,
        fine.f0_ceil == option.f0_ceil,
        fine.frame_period == T::of_int(1),
        unit_period(T::of_int(1)) || milliseconds_come_back::<T>(
            request_for(x.len() as usize, fs, fine).frames() as nat,
        ),
        !unit_period(option.frame_period),
        estimates(x, fs, option, listen, refine, r),
        estimates(x, fs, fine, other_listen, other_refine, base),
        0 <= i < r.1.len(),
    ensures
        r.1[i] == base.1[nearest_frame(r.0[i], base.1.len() as int)],
{
    let q = request_for(x.len() as usize, fs, option);
    let p = request_for(x.len() as usize, fs, fine);
    let own = frame_number(fs as int, x.len() as int, option.frame_period) as nat;
    let all = frame_number(fs as int, x.len() as int, T::of_int(1)) as nat;
    let f = choose|f: Seq<T>|
        {
            &&& #[trigger] leads_to(x, q, listen, refine, f)
            &&& r.0 == output_times(f.len(), own, option.frame_period)
            &&& r.1 == output_contour(f, own, option.frame_period)
        };
    let g = choose|g: Seq<T>|
        {
            &&& #[trigger] leads_to(x, p, other_listen, other_refine, g)
            &&& base.0 == output_times(g.len(), all, T::of_int(1))
            &&& base.1 == output_contour(g, all, T::of_int(1))
        };
    law_speed_is_clamped(x, q, p, listen, refine, other_listen, other_refine, t, f, g);
    let a = law_contour_follows(x, p, other_listen, other_refine, t, g);
    lemma_contour_length(a, t);
    if !unit_period(T::of_int(1)) {
        let times = frame_times(all, T::of_int(1));
        assert forall|m: int| 0 <= m < g.len() implies #[trigger] base.1[m] == g[m] by {
            assert(nearest_frame(times[m], g.len() as int) == m);
        }
    }
    assert(base.1 =~= g);
}

proof fn lemma_contour_length<T: Scalar>(a: Analysis<T>, t: Transforms<T>)
    requires
        a.well_formed(),
    ensures
        a.contour_by(t).len() == a.request.frames(),
{
}

} // verus!
