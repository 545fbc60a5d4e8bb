//! One analysis of a signal, with frames one or more whole milliseconds apart.
//!
//! The transforms are handed in as functions: one from a real signal to its
//! spectrum, one from a spectrum and a length to a real signal that is not scaled.
//! Contracts speak of whatever these return.
use crate::basics::{copied, filled, grid, nought, zero};
use crate::candidates::{most_detected, overlapped};
use crate::harvest::{
    Plan, Request, check_filter_fits, conclude, detected_grid, filter_fits,
    final_contour, frame_times, harvest_general_body_sub, law_plan_admits_waveform, plan_analysis,
    temporal_positions,
};
use crate::refine::{
    Refinement, begin_refinement, diff_frame, gated, get_refined_f0, main_frame, manageable,
    mean_f0, transform_length, window_length,
};
use crate::scalar::Scalar;
use crate::spectrum::{
    Complex, band_pass, band_pass_filter, fft_real, filter_spectrum,
    get_f0_candidate_from_raw_event, products, suggested,
};
use crate::waveform::{get_waveform_and_spectrum, waveform};
use vstd::prelude::*;

verus! {

/// Why a step has no result.
#[derive(Debug, PartialEq, Eq)]
pub enum Fault {
    /// A length is out of range.
    OutOfRange,
    /// What was handed back is not of the shape that was asked for.
    Shape,
}

/// Whether `forward` may give the spectrum `s` for the signal `x`.
pub open spec fn transforms<T, F: Fn(Vec<T>) -> Vec<Complex<T>>>(
    forward: F,
    x: Seq<T>,
    s: Seq<Complex<T>>,
) -> bool {
    exists|v: Vec<T>, w: Vec<Complex<T>>| #[trigger]
        call_ensures(forward, (v,), w) && v@ == x && w@ == s
}

/// Whether `inverse` may give the signal `x` for the spectrum `s` and length `n`.
pub open spec fn inverts<T, G: Fn(Vec<Complex<T>>, usize) -> Vec<T>>(
    inverse: G,
    s: Seq<Complex<T>>,
    n: usize,
    x: Seq<T>,
) -> bool {
    exists|v: Vec<Complex<T>>, w: Vec<T>| #[trigger]
        call_ensures(inverse, (v, n), w) && v@ == s && w@ == x
}

/// An analysis under way.
pub struct Analysis<T> {
    pub request: Request<T>,
    pub plan: Plan<T>,
    /// The waveform at the reduced rate, as long as the transform.
    pub y: Vec<T>,
    /// The times of the frames, in seconds.
    pub temporal_positions: Vec<T>,
}

impl<T: Scalar> Analysis<T> {
    /// The parts belong together.
    pub open spec fn well_formed(&self) -> bool {
        &&& self.request.feasible()
        &&& self.plan.answers(self.request)
        &&& self.y@.len() == self.plan.fft_size
        &&& self.temporal_positions@ == frame_times(
            self.plan.f0_length as nat,
            T::of_int(self.request.frame_period as int),
        )
    }

    /// The waveform under analysis is that of `x`.
    pub open spec fn analyses(&self, x: Seq<T>) -> bool {
        &&& self.well_formed()
        &&& x.len() == self.request.x_length
        &&& self.y@ == waveform(
            x,
            self.plan.y_length as int,
            self.plan.fft_size as int,
            self.plan.decimation_ratio as int,
        )
    }

    /// The number of channels.
    pub open spec fn channels(&self) -> nat {
        self.plan.boundary_f0_list@.len()
    }

    /// The samples of the waveform that stem from the signal.
    pub open spec fn samples(&self) -> Seq<T> {
        self.y@.take(self.plan.y_length as int)
    }

    /// Starts the analysis of `x`, nothing where a length is out of range.
    pub fn begin(x: &[T], request: Request<T>) -> (r: Option<Analysis<T>>)
        requires
            x@.len() == request.x_length,
        ensures
            match r {
                Some(a) => a.request == request && a.analyses(x@),
                None => !request.feasible(),
            },
    {
        match plan_analysis(&request) {
            None => None,
            Some(plan) => {
                proof {
                    law_plan_admits_waveform(request, plan);
                }
                let y: Vec<T> = get_waveform_and_spectrum(
                    x,
                    plan.y_length,
                    plan.fft_size,
                    plan.decimation_ratio,
                );
                let temporal_positions: Vec<T> = temporal_positions(
                    plan.f0_length,
                    T::from_int(request.frame_period as i128),
                );
                Some(Analysis { request, plan, y, temporal_positions })
            },
        }
    }

    /// Whether the filter of channel `i` fits the transform.
    pub open spec fn channel_fits(&self, i: int) -> bool {
        filter_fits(
            self.plan.boundary_f0_list@[i],
            self.plan.actual_fs,
            self.plan.y_length as int,
            self.plan.fft_size as int,
        )
    }

    /// The filter of channel `i`.
    pub open spec fn channel_filter(&self, i: int) -> Seq<T> {
        band_pass(
            self.plan.boundary_f0_list@[i],
            self.plan.fft_size as nat,
            self.plan.actual_fs,
        )
    }

    /// The filter of channel `i`, nothing where it does not fit the transform.
    pub fn filter(&self, i: usize) -> (r: Option<Vec<T>>)
        requires
            i < self.channels(),
        ensures
            match r {
                Some(h) => {
                    &&& self.channel_fits(i as int)
                    &&& h@ == self.channel_filter(i as int)
                },
                None => !self.channel_fits(i as int),
            },
    {
        let boundary_f0: T = self.plan.boundary_f0_list[i];
        if check_filter_fits(
            boundary_f0,
            self.plan.actual_fs,
            self.plan.y_length,
            self.plan.fft_size,
        ) {
            Some(band_pass_filter(boundary_f0, self.plan.fft_size, self.plan.actual_fs))
        } else {
            None
        }
    }

    /// The contour of channel `i`, given what the inverse transform of the product
    /// of spectra gave for it.
    pub open spec fn channel_contour(&self, i: int, time: Seq<T>) -> Seq<T> {
        suggested(
            time,
            self.plan.boundary_f0_list@[i],
            self.plan.actual_fs,
            self.plan.y_length as int,
            self.plan.fft_size as nat,
            self.request.f0_floor,
            self.request.f0_ceil,
            self.temporal_positions@,
            self.plan.f0_length as nat,
        )
    }

    /// Works out the contour of channel `i`.
    pub fn contour(&self, i: usize, time: &[T]) -> (f0_candidate: Vec<T>)
        requires
            self.well_formed(),
            i < self.channels(),
            self.channel_fits(i as int),
            self.plan.fft_size <= time@.len(),
        ensures
            f0_candidate@ == self.channel_contour(i as int, time@),
            f0_candidate@.len() == self.plan.f0_length,
    {
        let mut f0_candidate: Vec<T> = filled(self.plan.f0_length, nought());
        get_f0_candidate_from_raw_event(
            time,
            self.plan.boundary_f0_list[i],
            self.plan.actual_fs,
            self.plan.y_length,
            self.plan.fft_size,
            self.request.f0_floor,
            self.request.f0_ceil,
            &self.temporal_positions,
            &mut f0_candidate,
        );
        f0_candidate
    }

    /// Whether `f` may be the contour of channel `i` of a signal with the given
    /// spectrum.
    pub open spec fn hears<F, G>(
        &self,
        i: int,
        y_spectrum: Seq<Complex<T>>,
        forward: F,
        inverse: G,
        f: Seq<T>,
    ) -> bool where F: Fn(Vec<T>) -> Vec<Complex<T>>, G: Fn(Vec<Complex<T>>, usize) -> Vec<T> {
        exists|h: Seq<Complex<T>>, time: Seq<T>|
            {
                &&& #[trigger] transforms(forward, self.channel_filter(i), h)
                &&& #[trigger] inverts(inverse, products(y_spectrum, h), self.plan.fft_size, time)
                &&& f == self.channel_contour(i, time)
            }
    }

    /// Whether the transforms may give a result too short to go on with.
    pub open spec fn hears_short<F, G>(
        &self,
        i: int,
        y_spectrum: Seq<Complex<T>>,
        forward: F,
        inverse: G,
    ) -> bool where F: Fn(Vec<T>) -> Vec<Complex<T>>, G: Fn(Vec<Complex<T>>, usize) -> Vec<T> {
        exists|h: Seq<Complex<T>>|
            {
                &&& #[trigger] transforms(forward, self.channel_filter(i), h)
                &&& h.len() < y_spectrum.len() || exists|time: Seq<T>|
                    {
                        &&& #[trigger] inverts(
                            inverse,
                            products(y_spectrum, h),
                            self.plan.fft_size,
                            time,
                        )
                        &&& time.len() < self.plan.fft_size
                    }
            }
    }

    /// The contour of channel `i` of a signal with the given spectrum: the filter
    /// of the channel is transformed, multiplied by the spectrum and transformed
    /// back.
    pub fn hear<F, G>(
        &self,
        i: usize,
        y_spectrum: &[Complex<T>],
        forward: F,
        inverse: G,
    ) -> (r: Result<Vec<T>, Fault>) where
        F: Fn(Vec<T>) -> Vec<Complex<T>>,
        G: Fn(Vec<Complex<T>>, usize) -> Vec<T>,

        requires
            self.well_formed(),
            i < self.channels(),
            forall|v: Vec<T>| call_requires(forward, (v,)),
            forall|v: Vec<Complex<T>>, n: usize| call_requires(inverse, (v, n)),
        ensures
            match r {
                Ok(f) => {
                    &&& self.channel_fits(i as int)
                    &&& f@.len() == self.plan.f0_length
                    &&& self.hears(i as int, y_spectrum@, forward, inverse, f@)
                },
                Err(Fault::OutOfRange) => !self.channel_fits(i as int),
                Err(Fault::Shape) => {
                    &&& self.channel_fits(i as int)
                    &&& self.hears_short(i as int, y_spectrum@, forward, inverse)
                },
            },
    {
        let n: usize = self.plan.fft_size;
        let filter: Vec<T> = match self.filter(i) {
            Some(h) => h,
            None => {
                return Err(Fault::OutOfRange);
            },
        };
        let time_in: Vec<T> = fft_real(&filter, n);
        assert(time_in@ =~= self.channel_filter(i as int));
        let h_spectrum: Vec<Complex<T>> = forward(time_in);
        assert(transforms(forward, self.channel_filter(i as int), h_spectrum@));
        if h_spectrum.len() < y_spectrum.len() {
            return Err(Fault::Shape);
        }
        let prod: Vec<Complex<T>> = filter_spectrum(y_spectrum, &h_spectrum);
        let ghost p = prod@;
        let time: Vec<T> = inverse(prod, n);
        assert(inverts(inverse, p, n, time@));
        if time.len() < n {
            return Err(Fault::Shape);
        }
        Ok(self.contour(i, &time))
    }

    /// Whether `raw` may be the contours of all channels: the spectrum of the
    /// waveform is taken once, and each channel is heard in it by itself.
    pub open spec fn hears_all<F, G>(&self, forward: F, inverse: G, raw: Seq<Seq<T>>) -> bool where
        F: Fn(Vec<T>) -> Vec<Complex<T>>,
        G: Fn(Vec<Complex<T>>, usize) -> Vec<T>,
     {
        exists|s: Seq<Complex<T>>|
            {
                &&& #[trigger] transforms(forward, self.y@, s)
                &&& raw.len() == self.channels()
                &&& forall|i: int|
                    0 <= i < raw.len() ==> self.hears(i, s, forward, inverse, #[trigger] raw[i])
            }
    }

    /// Whether some channel may give a result too short to go on with.
    pub open spec fn hears_some_short<F, G>(&self, forward: F, inverse: G) -> bool where
        F: Fn(Vec<T>) -> Vec<Complex<T>>,
        G: Fn(Vec<Complex<T>>, usize) -> Vec<T>,
     {
        exists|s: Seq<Complex<T>>, i: int|
            {
                &&& #[trigger] transforms(forward, self.y@, s)
                &&& 0 <= i < self.channels()
                &&& #[trigger] self.hears_short(i, s, forward, inverse)
            }
    }

    /// Whether `r` may be the outcome of hearing all channels: their contours, each
    /// as long as there are frames; or the fault of a channel that does not fit or
    /// of a result too short.
    pub open spec fn hearing<F, G>(
        &self,
        forward: F,
        inverse: G,
        r: Result<Vec<Vec<T>>, Fault>,
    ) -> bool where F: Fn(Vec<T>) -> Vec<Complex<T>>, G: Fn(Vec<Complex<T>>, usize) -> Vec<T> {
        match r {
            Ok(raw) => {
                &&& self.hears_all(forward, inverse, grid(raw@))
                &&& raw@.len() == self.channels()
                &&& forall|i: int|
                    0 <= i < raw@.len() ==> self.channel_fits(i) && (#[trigger] raw@[i])@.len()
                        == self.plan.f0_length
            },
            Err(Fault::OutOfRange) => exists|i: int|
                0 <= i < self.channels() && !(#[trigger] self.channel_fits(i)),
            Err(Fault::Shape) => self.hears_some_short(forward, inverse),
        }
    }

    /// Hears all channels, one after the other.
    pub fn hear_all<F, G>(&self, forward: F, inverse: G) -> (r: Result<Vec<Vec<T>>, Fault>) where
        F: Fn(Vec<T>) -> Vec<Complex<T>> + Copy,
        G: Fn(Vec<Complex<T>>, usize) -> Vec<T> + Copy,

        requires
            self.well_formed(),
            forall|v: Vec<T>| call_requires(forward, (v,)),
            forall|v: Vec<Complex<T>>, n: usize| call_requires(inverse, (v, n)),
        ensures
            self.hearing(forward, inverse, r),
    {
        let time: Vec<T> = fft_real(&self.y, self.plan.fft_size);
        assert(time@ =~= self.y@);
        let y_spectrum: Vec<Complex<T>> = forward(time);
        assert(transforms(forward, self.y@, y_spectrum@));
        let mut raw: Vec<Vec<T>> = Vec::new();
        for i in 0..self.plan.boundary_f0_list.len()
            invariant
                self.well_formed(),
                forall|v: Vec<T>| call_requires(forward, (v,)),
                forall|v: Vec<Complex<T>>, n: usize| call_requires(inverse, (v, n)),
                transforms(forward, self.y@, y_spectrum@),
                raw@.len() == i,
                forall|k: int| 0 <= k < i ==> #[trigger] self.channel_fits(k),
                forall|k: int|
                    0 <= k < i ==> (#[trigger] raw@[k])@.len() == self.plan.f0_length,
                forall|k: int|
                    0 <= k < i ==> self.hears(
                        k,
                        y_spectrum@,
                        forward,
                        inverse,
                        (#[trigger] raw@[k])@,
                    ),
        {
            match self.hear(i, &y_spectrum, forward, inverse) {
                Ok(f) => {
                    raw.push(f);
                },
                Err(e) => {
                    return Err(e);
                },
            }
        }
        assert forall|k: int| 0 <= k < grid(raw@).len() implies self.hears(
            k,
            y_spectrum@,
            forward,
            inverse,
            #[trigger] grid(raw@)[k],
        ) by {
            assert(grid(raw@)[k] == raw@[k]@);
        }
        Ok(raw)
    }

    /// How many candidates a frame has of its own, given the contours of all
    /// channels.
    pub open spec fn own_number(&self, raw: Seq<Seq<T>>) -> nat {
        most_detected(
            raw,
            self.channels(),
            self.plan.f0_length as nat,
            self.plan.max_candidates as nat,
        )
    }

    /// The candidates of all frames, neighbours included.
    pub open spec fn candidate_grid(&self, raw: Seq<Seq<T>>) -> Seq<Seq<T>> {
        overlapped(
            detected_grid(
                raw,
                self.channels(),
                self.plan.f0_length as nat,
                self.plan.max_candidates as nat,
            ),
            self.plan.f0_length as int,
            self.own_number(raw) as int,
        )
    }

    /// The candidates of all frames and how many of them each frame has.
    pub fn candidates(&self, raw_f0_candidates: &Vec<Vec<T>>) -> (r: (Vec<Vec<T>>, usize))
        requires
            self.well_formed(),
            raw_f0_candidates@.len() == self.channels(),
            forall|k: int|
                0 <= k < raw_f0_candidates@.len() ==> (#[trigger] raw_f0_candidates@[k])@.len()
                    == self.plan.f0_length,
        ensures
            r.1 == 7 * self.own_number(grid(raw_f0_candidates@)),
            r.1 <= self.plan.max_candidates,
            grid(r.0@) == self.candidate_grid(grid(raw_f0_candidates@)),
            r.0@.len() == self.plan.f0_length,
            forall|k: int|
                0 <= k < r.0@.len() ==> (#[trigger] r.0@[k])@.len() == self.plan.max_candidates,
    {
        let (f0_candidates, own) = harvest_general_body_sub(
            raw_f0_candidates,
            self.plan.f0_length,
            self.plan.max_candidates,
        );
        assert(grid(f0_candidates@).len() == self.plan.f0_length);
        assert forall|k: int| 0 <= k < f0_candidates@.len() implies (
        #[trigger] f0_candidates@[k])@.len() == self.plan.max_candidates by {
            assert(grid(f0_candidates@)[k] == f0_candidates@[k]@);
        }
        (f0_candidates, own * 7)
    }

    /// What the candidate `current_f0` of frame `k` needs in order to be refined.
    pub fn refinement(&self, k: usize, current_f0: T) -> (r: Refinement<T>)
        requires
            self.well_formed(),
            k < self.plan.f0_length,
            0 < self.plan.y_length,
        ensures
            match r {
                Refinement::Unvoiced => current_f0 <= zero::<T>(),
                Refinement::Frames { fft_size, main, diff } => {
                    let fs = self.plan.actual_fs;
                    let t = self.temporal_positions@[k as int];
                    &&& !(current_f0 <= zero::<T>())
                    &&& manageable(fs, t, current_f0)
                    &&& fft_size == transform_length(window_length(fs, current_f0))
                    &&& main@ == main_frame(self.samples(), fs, t, current_f0)
                    &&& diff@ == diff_frame(self.samples(), fs, t, current_f0)
                },
                Refinement::TooLong => {
                    &&& !(current_f0 <= zero::<T>())
                    &&& !manageable(
                        self.plan.actual_fs,
                        self.temporal_positions@[k as int],
                        current_f0,
                    )
                },
            },
    {
        let x: &[T] = vstd::slice::slice_subrange(&self.y, 0, self.plan.y_length);
        begin_refinement(x, self.plan.actual_fs, self.temporal_positions[k], current_f0)
    }

    /// The refined frequency and the score of the candidate `current_f0`, given the
    /// spectra of its two frames.
    pub fn refined(
        &self,
        current_f0: T,
        fft_size: usize,
        main_spectrum: &[Complex<T>],
        diff_spectrum: &[Complex<T>],
    ) -> (r: (T, T))
        requires
            fft_size / 2 < main_spectrum@.len(),
            fft_size / 2 < diff_spectrum@.len(),
        ensures
            r == gated(
                mean_f0(
                    main_spectrum@,
                    diff_spectrum@,
                    fft_size as int,
                    self.plan.actual_fs,
                    current_f0,
                ),
                self.request.f0_floor,
                self.request.f0_ceil,
            ),
    {
        get_refined_f0(
            main_spectrum,
            diff_spectrum,
            fft_size,
            self.plan.actual_fs,
            current_f0,
            self.request.f0_floor,
            self.request.f0_ceil,
        )
    }

    /// Whether `r` may be the refined frequency and the score of the candidate
    /// `current_f0` of frame `k`.
    pub open spec fn refines<F>(&self, k: int, current_f0: T, forward: F, r: (T, T)) -> bool where
        F: Fn(Vec<T>) -> Vec<Complex<T>>,
     {
        let fs = self.plan.actual_fs;
        let t = self.temporal_positions@[k];
        if current_f0 <= zero::<T>() {
            r == (zero::<T>(), zero::<T>())
        } else {
            exists|main: Seq<Complex<T>>, diff: Seq<Complex<T>>|
                {
                    &&& #[trigger] transforms(
                        forward,
                        main_frame(self.samples(), fs, t, current_f0),
                        main,
                    )
                    &&& #[trigger] transforms(
                        forward,
                        diff_frame(self.samples(), fs, t, current_f0),
                        diff,
                    )
                    &&& r == gated(
                        mean_f0(
                            main,
                            diff,
                            transform_length(window_length(fs, current_f0)),
                            fs,
                            current_f0,
                        ),
                        self.request.f0_floor,
                        self.request.f0_ceil,
                    )
                }
        }
    }

    /// Whether the candidate `current_f0` of frame `k` can be refined: it is not
    /// positive, or there are samples and its window is manageable.
    pub open spec fn refinable(&self, k: int, current_f0: T) -> bool {
        current_f0 <= zero::<T>() || (0 < self.plan.y_length && manageable(
            self.plan.actual_fs,
            self.temporal_positions@[k],
            current_f0,
        ))
    }

    /// Whether the transform may give a spectrum too short to go on with.
    pub open spec fn refines_short<F>(&self, k: int, current_f0: T, forward: F) -> bool where
        F: Fn(Vec<T>) -> Vec<Complex<T>>,
     {
        let fs = self.plan.actual_fs;
        let t = self.temporal_positions@[k];
        exists|frame: Seq<T>, s: Seq<Complex<T>>|
            {
                &&& #[trigger] transforms(forward, frame, s)
                &&& frame == main_frame(self.samples(), fs, t, current_f0) || frame == diff_frame(
                    self.samples(),
                    fs,
                    t,
                    current_f0,
                )
                &&& s.len() <= transform_length(window_length(fs, current_f0)) / 2
            }
    }

    /// The refined frequency and the score of the candidate `current_f0` of frame
    /// `k`.
    pub fn refine<F>(&self, k: usize, current_f0: T, forward: F) -> (r: Result<(T, T), Fault>) where
        F: Fn(Vec<T>) -> Vec<Complex<T>>,

        requires
            self.well_formed(),
            k < self.plan.f0_length,
            forall|v: Vec<T>| call_requires(forward, (v,)),
        ensures
            match r {
                Ok(p) => {
                    &&& self.refinable(k as int, current_f0)
                    &&& self.refines(k as int, current_f0, forward, p)
                },
                Err(Fault::OutOfRange) => !self.refinable(k as int, current_f0),
                Err(Fault::Shape) => {
                    &&& !(current_f0 <= zero::<T>())
                    &&& self.refinable(k as int, current_f0)
                    &&& self.refines_short(k as int, current_f0, forward)
                },
            },
    {
        if current_f0.at_most(nought()) {
            return Ok((nought(), nought()));
        }
        if self.plan.y_length == 0 {
            return Err(Fault::OutOfRange);
        }
        match self.refinement(k, current_f0) {
            Refinement::Unvoiced => Ok((nought(), nought())),
            Refinement::TooLong => Err(Fault::OutOfRange),
            Refinement::Frames { fft_size, main, diff } => {
                let ghost m = main@;
                let ghost d = diff@;
                let main_in: Vec<T> = fft_real(&main, fft_size);
                let diff_in: Vec<T> = fft_real(&diff, fft_size);
                assert(main_in@ =~= m);
                assert(diff_in@ =~= d);
                let main_spectrum: Vec<Complex<T>> = forward(main_in);
                assert(transforms(forward, m, main_spectrum@));
                let diff_spectrum: Vec<Complex<T>> = forward(diff_in);
                assert(transforms(forward, d, diff_spectrum@));
                if main_spectrum.len() <= fft_size / 2 || diff_spectrum.len() <= fft_size / 2 {
                    return Err(Fault::Shape);
                }
                Ok(self.refined(current_f0, fft_size, &main_spectrum, &diff_spectrum))
            },
        }
    }

    /// Whether `r` may be the candidates of frame `k` once the first `number` are
    /// refined, and the scores of all of them, zero beyond these.
    pub open spec fn refines_frame<F>(
        &self,
        k: int,
        candidates: Seq<T>,
        number: int,
        forward: F,
        r: (Seq<T>, Seq<T>),
    ) -> bool where F: Fn(Vec<T>) -> Vec<Complex<T>> {
        &&& r.0.len() == candidates.len()
        &&& r.1.len() == candidates.len()
        &&& forall|j: int|
            #![trigger r.0[j]]
            #![trigger r.1[j]]
            0 <= j < candidates.len() ==> if j < number {
                self.refines(k, candidates[j], forward, (r.0[j], r.1[j]))
            } else {
                r.0[j] == candidates[j] && r.1[j] == zero::<T>()
            }
    }

    /// Refines the first `number_of_candidates` candidates of frame `k`.
    pub fn refine_frame<F>(
        &self,
        k: usize,
        candidates: &[T],
        number_of_candidates: usize,
        forward: F,
    ) -> (r: Result<(Vec<T>, Vec<T>), Fault>) where F: Fn(Vec<T>) -> Vec<Complex<T>> + Copy
        requires
            self.well_formed(),
            k < self.plan.f0_length,
            number_of_candidates <= candidates@.len(),
            forall|v: Vec<T>| call_requires(forward, (v,)),
        ensures
            match r {
                Ok((c, s)) => self.refines_frame(
                    k as int,
                    candidates@,
                    number_of_candidates as int,
                    forward,
                    (c@, s@),
                ),
                Err(Fault::OutOfRange) => exists|j: int|
                    0 <= j < number_of_candidates && !self.refinable(
                        k as int,
                        #[trigger] candidates@[j],
                    ),
                Err(Fault::Shape) => exists|j: int|
                    {
                        &&& 0 <= j < number_of_candidates
                        &&& !(#[trigger] candidates@[j] <= zero::<T>())
                        &&& self.refines_short(k as int, candidates@[j], forward)
                    },
            },
    {
        let mut refined: Vec<T> = copied(candidates);
        let mut scores: Vec<T> = filled(candidates.len(), nought());
        for j in 0..number_of_candidates
            invariant
                self.well_formed(),
                k < self.plan.f0_length,
                number_of_candidates <= candidates@.len(),
                forall|v: Vec<T>| call_requires(forward, (v,)),
                self.refines_frame(k as int, candidates@, j as int, forward, (refined@, scores@)),
        {
            match self.refine(k, candidates[j], forward) {
                Ok((f0, score)) => {
                    refined[j] = f0;
                    scores[j] = score;
                },
                Err(e) => {
                    return Err(e);
                },
            }
        }
        Ok((refined, scores))
    }

    /// Whether `r` may be the candidates of all frames once the first `number` of
    /// each are refined, and their scores; each frame by itself.
    pub open spec fn refines_all<F>(
        &self,
        candidates: Seq<Seq<T>>,
        number: int,
        forward: F,
        r: (Seq<Seq<T>>, Seq<Seq<T>>),
    ) -> bool where F: Fn(Vec<T>) -> Vec<Complex<T>> {
        &&& r.0.len() == candidates.len()
        &&& r.1.len() == candidates.len()
        &&& forall|k: int|
            #![trigger r.0[k]]
            #![trigger r.1[k]]
            0 <= k < candidates.len() ==> self.refines_frame(
                k,
                candidates[k],
                number,
                forward,
                (r.0[k], r.1[k]),
            )
    }

    /// Whether `r` may be the outcome of refining the first `number` candidates of
    /// every frame: candidates and scores; or the fault of a candidate that cannot
    /// be refined or of a spectrum too short.
    pub open spec fn refining<F>(
        &self,
        candidates: Seq<Seq<T>>,
        number: int,
        forward: F,
        r: Result<(Vec<Vec<T>>, Vec<Vec<T>>), Fault>,
    ) -> bool where F: Fn(Vec<T>) -> Vec<Complex<T>> {
        match r {
            Ok((c, s)) => self.refines_all(candidates, number, forward, (grid(c@), grid(s@))),
            Err(Fault::OutOfRange) => exists|k: int, j: int|
                {
                    &&& 0 <= k < candidates.len()
                    &&& 0 <= j < number
                    &&& !self.refinable(k, #[trigger] candidates[k][j])
                },
            Err(Fault::Shape) => exists|k: int, j: int|
                {
                    &&& 0 <= k < candidates.len()
                    &&& 0 <= j < number
                    &&& !(#[trigger] candidates[k][j] <= zero::<T>())
                    &&& self.refines_short(k, candidates[k][j], forward)
                },
        }
    }

    /// Refines the first `number_of_candidates` candidates of every frame, one
    /// frame after the other.
    pub fn refine_all<F>(
        &self,
        candidates: &Vec<Vec<T>>,
        number_of_candidates: usize,
        forward: F,
    ) -> (r: Result<(Vec<Vec<T>>, Vec<Vec<T>>), Fault>) where
        F: Fn(Vec<T>) -> Vec<Complex<T>> + Copy,

        requires
            self.well_formed(),
            candidates@.len() <= self.plan.f0_length,
            forall|k: int|
                0 <= k < candidates@.len() ==> number_of_candidates <= (
                #[trigger] candidates@[k])@.len(),
            forall|v: Vec<T>| call_requires(forward, (v,)),
        ensures
            self.refining(grid(candidates@), number_of_candidates as int, forward, r),
    {
        let ghost before = grid(candidates@);
        let mut refined: Vec<Vec<T>> = Vec::new();
        let mut scores: Vec<Vec<T>> = Vec::new();
        for k in 0..candidates.len()
            invariant
                self.well_formed(),
                before == grid(candidates@),
                candidates@.len() <= self.plan.f0_length,
                forall|i: int|
                    0 <= i < candidates@.len() ==> number_of_candidates <= (
                    #[trigger] candidates@[i])@.len(),
                forall|v: Vec<T>| call_requires(forward, (v,)),
                refined@.len() == k,
                scores@.len() == k,
                forall|i: int|
                    #![trigger refined@[i]]
                    #![trigger scores@[i]]
                    0 <= i < k ==> self.refines_frame(
                        i,
                        before[i],
                        number_of_candidates as int,
                        forward,
                        (refined@[i]@, scores@[i]@),
                    ),
        {
            assert(before[k as int] == candidates@[k as int]@);
            match self.refine_frame(k, &candidates[k], number_of_candidates, forward) {
                Ok((c, s)) => {
                    refined.push(c);
                    scores.push(s);
                },
                Err(e) => {
                    return Err(e);
                },
            }
        }
        proof {
            let r = (grid(refined@), grid(scores@));
            assert forall|k: int|
                #![trigger r.0[k]]
                #![trigger r.1[k]]
                0 <= k < before.len() implies self.refines_frame(
                k,
                before[k],
                number_of_candidates as int,
                forward,
                (r.0[k], r.1[k]),
            ) by {
                assert(r.0[k] == refined@[k]@);
                assert(r.1[k] == scores@[k]@);
            }
        }
        Ok((refined, scores))
    }

    /// The contour that the refined candidates and their scores lead to.
    pub fn conclude(
        &self,
        f0_candidates: &mut Vec<Vec<T>>,
        f0_scores: &mut Vec<Vec<T>>,
        number_of_candidates: usize,
    ) -> (f0: Vec<T>)
        requires
            self.well_formed(),
            old(f0_candidates)@.len() == self.plan.f0_length,
            old(f0_scores)@.len() == self.plan.f0_length,
            forall|i: int|
                0 <= i < old(f0_candidates)@.len() ==> number_of_candidates <= (
                #[trigger] old(f0_candidates)@[i])@.len(),
            forall|i: int|
                0 <= i < old(f0_scores)@.len() ==> number_of_candidates <= (
                #[trigger] old(f0_scores)@[i])@.len(),
        ensures
            f0@ == final_contour(
                grid(old(f0_candidates)@),
                grid(old(f0_scores)@),
                self.plan.f0_length as nat,
                number_of_candidates as nat,
            ),
            f0@.len() == self.plan.f0_length,
    {
        conclude(f0_candidates, f0_scores, self.plan.f0_length, number_of_candidates)
    }
}

} // verus!
