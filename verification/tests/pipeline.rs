use harvest_rs::analysis::{Analysis, Fault};
use harvest_rs::batch::{harvest_array, harvest_rows, ArrayEstimate, ArrayFault, ShapeError};
use harvest_rs::estimator::{harvest, harvest_general_body, has_shape, Heard, Refined};
use harvest_rs::fixed::Fixed;
use harvest_rs::harvest::{check_filter_fits, dimension_ratio, HarvestOption, Request};
use harvest_rs::scalar::Scalar;
use harvest_rs::spectrum::{fft_real, ifft_to_real_in_place, Complex};
use harvest_rs::success::harvest_in_turn;
use realfft::RealFftPlanner;

#[derive(Clone, Copy, Debug, PartialEq)]
struct F(f64);

impl Scalar for F {
    fn from_int(n: i128) -> F {
        F(n as f64)
    }
    fn from_decimal(digits: i64, places: u32) -> F {
        F(format!("{}e-{}", digits, places).parse().unwrap())
    }
    fn plus(self, rhs: F) -> F {
        F(self.0 + rhs.0)
    }
    fn minus(self, rhs: F) -> F {
        F(self.0 - rhs.0)
    }
    fn times(self, rhs: F) -> F {
        F(self.0 * rhs.0)
    }
    fn over(self, rhs: F) -> F {
        F(self.0 / rhs.0)
    }
    fn negated(self) -> F {
        F(-self.0)
    }
    fn abs(self) -> F {
        F(self.0.abs())
    }
    fn floor(self) -> F {
        F(self.0.floor())
    }
    fn ceil(self) -> F {
        F(self.0.ceil())
    }
    fn cos(self) -> F {
        F(self.0.cos())
    }
    fn sqrt(self) -> F {
        F(self.0.sqrt())
    }
    fn ln(self) -> F {
        F(self.0.ln())
    }
    fn exp2(self) -> F {
        F(2.0_f64.powf(self.0))
    }
    fn less(self, rhs: F) -> bool {
        self.0 < rhs.0
    }
    fn at_most(self, rhs: F) -> bool {
        self.0 <= rhs.0
    }
    fn same(self, rhs: F) -> bool {
        self.0 == rhs.0
    }
    fn is_nan(self) -> bool {
        self.0.is_nan()
    }
    fn is_finite(self) -> bool {
        self.0.is_finite()
    }
    fn to_i32(self) -> i32 {
        self.0 as i32
    }
    fn to_usize(self) -> usize {
        self.0 as usize
    }
}

fn reals(x: &[f64]) -> Vec<F> {
    x.iter().map(|&v| F(v)).collect()
}

fn forward(x: Vec<F>) -> Vec<Complex<F>> {
    let plan = RealFftPlanner::<f64>::new().plan_fft_forward(x.len());
    let mut time: Vec<f64> = x.iter().map(|v| v.0).collect();
    let mut bins = plan.make_output_vec();
    plan.process(&mut time, &mut bins).unwrap();
    bins.iter().map(|c| Complex { re: F(c.re), im: F(c.im) }).collect()
}

fn inverse(spectrum: Vec<Complex<F>>, n: usize) -> Vec<F> {
    let plan = RealFftPlanner::<f64>::new().plan_fft_inverse(n);
    let mut bins = plan.make_input_vec();
    for (slot, c) in bins.iter_mut().zip(spectrum) {
        slot.re = c.re.0;
        slot.im = c.im.0;
    }
    let mut time = plan.make_output_vec();
    plan.process(&mut bins, &mut time).unwrap();
    reals(&time)
}

fn listen(a: &Analysis<F>) -> Heard<F> {
    a.hear_all(forward, inverse)
}

fn refine(a: &Analysis<F>, candidates: Vec<Vec<F>>, number: usize) -> Refined<F> {
    a.refine_all(&candidates, number, forward)
}

// The same steps from the last item to the first, each item by itself.

fn listen_backwards(a: &Analysis<F>) -> Heard<F> {
    let y_spectrum = forward(a.y.clone());
    let mut raw = Vec::new();
    for i in (0..a.plan.boundary_f0_list.len()).rev() {
        raw.push(a.hear(i, &y_spectrum, forward, inverse)?);
    }
    raw.reverse();
    Ok(raw)
}

fn refine_backwards(a: &Analysis<F>, candidates: Vec<Vec<F>>, number: usize) -> Refined<F> {
    let mut refined = Vec::new();
    let mut scores = Vec::new();
    for (k, row) in candidates.iter().enumerate().rev() {
        let (c, s) = a.refine_frame(k, row, number, forward)?;
        refined.push(c);
        scores.push(s);
    }
    refined.reverse();
    scores.reverse();
    Ok((refined, scores))
}

fn request(x_length: usize, fs: i32) -> Request<F> {
    Request {
        x_length,
        fs,
        frame_period: 1,
        f0_floor: F(71.0),
        f0_ceil: F(800.0),
        channels_in_octave: F(40.0),
        speed: dimension_ratio::<F>(fs),
    }
}

fn option(frame_period: f64) -> HarvestOption<F> {
    HarvestOption { f0_floor: F(71.0), f0_ceil: F(800.0), frame_period: F(frame_period) }
}

fn estimate(x: &[F], fs: i32) -> Vec<f64> {
    let (t, f0) = harvest(x, fs, &option(1.0), listen, refine).unwrap();
    assert_eq!(t.len(), f0.len());
    f0.iter().map(|v| v.0).collect()
}

fn tone(frequency: f64, fs: i32, n: usize) -> Vec<F> {
    (0..n)
        .map(|i| {
            let t = i as f64 / fs as f64;
            let w = 2.0 * std::f64::consts::PI * frequency * t;
            F((1..12).map(|h| (h as f64 * w).sin() / h as f64).sum())
        })
        .collect()
}

#[test]
fn a_tone_is_found_at_the_full_rate() {
    let x = tone(220.0, 8000, 2400);
    let f0 = estimate(&x, 8000);
    assert_eq!(f0.len(), 301);
    for k in 60..240 {
        assert!((f0[k] - 220.0).abs() < 0.5, "frame {}: {}", k, f0[k]);
    }
}

#[test]
fn a_tone_is_found_at_a_reduced_rate() {
    let x = tone(310.0, 24000, 7200);
    let f0 = estimate(&x, 24000);
    assert_eq!(f0.len(), 301);
    for k in 60..240 {
        assert!((f0[k] - 310.0).abs() < 0.5, "frame {}: {}", k, f0[k]);
    }
}

#[test]
fn silence_has_no_frequency() {
    let f0 = estimate(&vec![F(0.0); 1600], 8000);
    assert_eq!(f0, vec![0.0; 201]);
}

#[test]
fn the_plan_of_a_second_at_16_kilohertz() {
    let a = Analysis::begin(&vec![F(0.0); 16000], request(16000, 16000)).unwrap();
    assert_eq!(a.plan.decimation_ratio, 2);
    assert_eq!(a.plan.y_length, 8000);
    assert_eq!(a.plan.actual_fs, F(8000.0));
    assert_eq!(a.plan.f0_length, 1001);
    let floor = 71.0 * 0.9;
    let ceil = 800.0 * 1.1;
    let channels = 1 + ((ceil / floor as f64).ln() / 0.69314718055994529 * 40.0) as usize;
    assert_eq!(a.plan.boundary_f0_list.len(), channels);
    assert_eq!(a.plan.boundary_f0_list[3].0, floor * 2.0_f64.powf(4.0 / 40.0));
    assert_eq!(a.plan.max_candidates, (channels + 5) / 10 * 7);
    let extra = 2 * (2.0 * 8000.0 / a.plan.boundary_f0_list[0].0) as usize;
    assert_eq!(a.plan.fft_size, (8000 + 5 + extra).next_power_of_two());
    assert_eq!(a.temporal_positions[7], F(0.007));
}

#[test]
fn impossible_requests_are_refused() {
    assert!(Analysis::begin(&[], request(0, 16000)).is_none());
    assert!(Analysis::begin(&[], request(0, 8000)).is_some());
    assert!(Analysis::begin(&[F(0.0)], request(1, 0)).is_none());
}

#[test]
fn frames_asked_for_are_taken_from_the_finer_contour() {
    let x = tone(220.0, 8000, 2400);
    let basic = reals(&estimate(&x, 8000));
    let (t, f0) = harvest(&x, 8000, &option(2.5), listen, refine).unwrap();
    assert_eq!(t.len(), 121);
    assert_eq!(f0.len(), 121);
    for i in 0..121 {
        assert_eq!(t[i], F(i as f64 * 2.5 / 1000.0));
        // At 8000 samples per second the finer contour has 301 frames.
        let k = (t[i].0 * 1000.0 + 0.5).floor() as usize;
        assert_eq!(f0[i], basic[k.min(300)]);
    }
}

#[test]
fn faults_are_handed_on() {
    let x = tone(220.0, 8000, 800);
    assert_eq!(harvest(&x, 0, &option(5.0), listen, refine), Err(Fault::OutOfRange));
    assert_eq!(harvest(&[], 16000, &option(5.0), listen, refine), Err(Fault::OutOfRange));
    let deaf = |_: &Analysis<F>| -> Heard<F> { Ok(vec![]) };
    assert_eq!(harvest(&x, 8000, &option(5.0), deaf, refine), Err(Fault::Shape));
    let broken = |_: &Analysis<F>| -> Heard<F> { Err(Fault::Shape) };
    assert_eq!(harvest(&x, 8000, &option(5.0), broken, refine), Err(Fault::Shape));
    let lost = |_: &Analysis<F>, _: Vec<Vec<F>>, _: usize| -> Refined<F> { Ok((vec![], vec![])) };
    assert_eq!(harvest(&x, 8000, &option(5.0), listen, lost), Err(Fault::Shape));
    let late = |_: &Analysis<F>, _: Vec<Vec<F>>, _: usize| -> Refined<F> { Err(Fault::OutOfRange) };
    assert_eq!(harvest(&x, 8000, &option(5.0), listen, late), Err(Fault::OutOfRange));
}

#[test]
fn short_results_of_transforms_are_refused() {
    let x = tone(220.0, 8000, 800);
    let a = Analysis::begin(&x, request(800, 8000)).unwrap();
    let y_spectrum = forward(a.y.clone());
    let none = |_: Vec<F>| -> Vec<Complex<F>> { vec![] };
    let silent = |_: Vec<Complex<F>>, _: usize| -> Vec<F> { vec![] };
    assert_eq!(a.hear(0, &y_spectrum, none, inverse), Err(Fault::Shape));
    assert_eq!(a.hear(0, &y_spectrum, forward, silent), Err(Fault::Shape));
    assert_eq!(a.refine(3, F(220.0), none), Err(Fault::Shape));
    assert_eq!(a.refine(3, F(0.0), none), Ok((F(0.0), F(0.0))));
    assert_eq!(a.refine(3, F(1e-9), forward), Err(Fault::OutOfRange));
    assert_eq!(a.refine_frame(3, &[F(0.0), F(1e-9)], 2, forward), Err(Fault::OutOfRange));
    assert_eq!(a.refine_frame(3, &[F(220.0)], 1, none), Err(Fault::Shape));
    let (c, s) = a.refine_frame(50, &[F(221.0), F(-3.0), F(7.0)], 2, forward).unwrap();
    assert!((c[0].0 - 220.0).abs() < 0.5);
    assert!(s[0].0 > 2.5);
    assert_eq!((c[1], c[2], s[1], s[2]), (F(0.0), F(7.0), F(0.0), F(0.0)));
    assert!(has_shape(&vec![c], 1, 3));
}

#[test]
fn a_filter_that_does_not_fit_is_refused() {
    let mut a = Analysis::begin(&tone(220.0, 8000, 800), request(800, 8000)).unwrap();
    a.plan.boundary_f0_list[0] = F(1.0);
    assert!(a.filter(0).is_none());
    assert!(a.filter(1).is_some());
    assert_eq!(a.hear(0, &[], forward, inverse), Err(Fault::OutOfRange));
}

#[test]
fn the_order_of_the_work_does_not_matter() {
    let x = tone(220.0, 8000, 1200);
    let one = harvest(&x, 8000, &option(5.0), listen, refine).unwrap();
    let other = harvest(&x, 8000, &option(5.0), listen_backwards, refine_backwards).unwrap();
    assert_eq!(one, other);
    assert!(one.1.iter().any(|v| v.0 > 0.0));
    // Nor does what was estimated before.
    harvest(&tone(150.0, 8000, 900), 8000, &option(3.0), listen, refine).unwrap();
    assert_eq!(harvest(&x, 8000, &option(5.0), listen, refine).unwrap(), one);
}

#[test]
fn speeds_are_clamped() {
    let x = tone(220.0, 24000, 3600);
    let run = |speed: i32| {
        let q = Request { speed, ..request(3600, 24000) };
        harvest_general_body(&x, q, listen, refine).unwrap()
    };
    assert_eq!(run(-5), run(1));
    assert_eq!(run(0), run(1));
    assert_eq!(run(99), run(12));
    assert_ne!(run(3), run(1));
}

#[test]
fn rows_are_estimated_by_themselves() {
    let mut flat = tone(220.0, 8000, 1000);
    flat.extend(tone(150.0, 8000, 1000));
    let (t, f0) = harvest_rows(&flat, 2, 1000, 8000, &option(5.0), listen, refine).unwrap();
    let first = harvest(&flat[..1000], 8000, &option(5.0), listen, refine).unwrap();
    let second = harvest(&flat[1000..], 8000, &option(5.0), listen, refine).unwrap();
    assert_eq!(t, vec![first.0.clone(), first.0.clone()]);
    assert_eq!(f0, vec![first.1.clone(), second.1]);
    assert_ne!(f0[0], f0[1]);
    assert_eq!(
        harvest_rows(&flat, 2, 1000, 0, &option(5.0), listen, refine),
        Err(Fault::OutOfRange)
    );
    match harvest_array(&[2, 1000], &flat, 8000, &option(5.0), listen, refine) {
        Ok(ArrayEstimate::Rows(u, g0)) => assert_eq!((u, g0), (t, f0)),
        _ => panic!(),
    }
    match harvest_array(&[1000], &flat[..1000], 8000, &option(5.0), listen, refine) {
        Ok(ArrayEstimate::Single(u, g0)) => assert_eq!((u, g0), first),
        _ => panic!(),
    }
}

#[test]
fn arrays_of_other_shapes() {
    let run = |shape: &[usize], flat: &[F], fs: i32| {
        match harvest_array(shape, flat, fs, &option(5.0), listen, refine) {
            Ok(ArrayEstimate::Rows(t, f0)) => Ok((t.len(), f0.len())),
            Ok(ArrayEstimate::Single(..)) => panic!(),
            Err(e) => Err(e),
        }
    };
    assert_eq!(run(&[0, 7], &[], 8000), Ok((0, 0)));
    assert_eq!(run(&[0], &[], 8000), Err(ArrayFault::Shape(ShapeError::EmptySequence)));
    assert_eq!(run(&[3, 0], &[], 8000), Err(ArrayFault::Shape(ShapeError::EmptySequence)));
    assert_eq!(run(&[1, 1, 1], &[F(0.0)], 8000), Err(ArrayFault::Shape(ShapeError::Dimensions(3))));
    assert_eq!(run(&[1], &[F(0.0)], 0), Err(ArrayFault::Estimate(Fault::OutOfRange)));
}

#[test]
fn a_signal_comes_back_from_its_spectrum() {
    let x = reals(&[1.0, -2.0, 0.5, 3.0, 0.25]);
    let time = inverse(forward(fft_real(&x, 8)), 8);
    let mut out = reals(&[9.0; 10]);
    ifft_to_real_in_place(&time, 8, &mut out);
    for i in 0..8 {
        let expected = if i < 5 { x[i].0 } else { 0.0 };
        assert!((out[i].0 - expected).abs() < 1e-12);
    }
    assert_eq!((out[8], out[9]), (F(9.0), F(9.0)));
}

// Success.

fn fixed(v: f64) -> Fixed {
    Fixed { units: (v * 1e6) as i64 }
}

fn fixed_forward(x: Vec<Fixed>) -> Vec<Complex<Fixed>> {
    forward(x.iter().map(|v| F(v.units as f64 / 1e6)).collect())
        .iter()
        .map(|c| Complex { re: fixed(c.re.0), im: fixed(c.im.0) })
        .collect()
}

fn fixed_inverse(spectrum: Vec<Complex<Fixed>>, n: usize) -> Vec<Fixed> {
    let real = |v: Fixed| F(v.units as f64 / 1e6);
    let bins = spectrum.iter().map(|c| Complex { re: real(c.re), im: real(c.im) }).collect();
    inverse(bins, n).iter().map(|v| fixed(v.0)).collect()
}

fn fixed_request(x_length: usize, fs: i32, floor: f64) -> Request<Fixed> {
    Request {
        x_length,
        fs,
        frame_period: 1,
        f0_floor: fixed(floor),
        f0_ceil: fixed(800.0),
        channels_in_octave: fixed(40.0),
        speed: dimension_ratio::<Fixed>(fs),
    }
}

#[test]
fn the_filter_of_every_channel_fits() {
    for (fs, floor, n) in [(8000, 71.0, 1), (8000, 71.0, 400), (44100, 40.0, 900), (16000, 1.0, 50)]
    {
        let a = Analysis::begin(&vec![fixed(0.5); n], fixed_request(n, fs, floor)).unwrap();
        for &b in &a.plan.boundary_f0_list {
            assert!(check_filter_fits(b, a.plan.actual_fs, a.plan.y_length, a.plan.fft_size));
        }
        let q = Request { f0_floor: F(floor), ..request(n, fs) };
        let a = Analysis::begin(&vec![F(0.5); n], q).unwrap();
        for &b in &a.plan.boundary_f0_list {
            assert!(check_filter_fits(b, a.plan.actual_fs, a.plan.y_length, a.plan.fft_size));
        }
    }
}

#[test]
fn every_candidate_from_the_floor_on_can_be_refined() {
    let x = vec![fixed(0.5); 400];
    let a = Analysis::begin(&x, fixed_request(400, 8000, 71.0)).unwrap();
    for k in [0, 17, a.plan.f0_length - 1] {
        for f0 in [71.0, 72.5, 800.0, 3999.0, 1e6] {
            assert!(a.refine(k, fixed(f0), fixed_forward).is_ok());
        }
    }
}

#[test]
fn a_tone_is_found_in_fixed_point_numbers() {
    let x: Vec<Fixed> = tone(220.0, 8000, 1200).iter().map(|v| fixed(v.0)).collect();
    let run = |period: f64| {
        let option = HarvestOption {
            f0_floor: fixed(71.0),
            f0_ceil: fixed(800.0),
            frame_period: fixed(period),
        };
        harvest_in_turn(&x, 8000, &option, fixed_forward, fixed_inverse).unwrap()
    };
    let (t, f0) = run(5.0);
    assert_eq!(t.len(), 31);
    assert_eq!(t[3], fixed(0.015));
    for k in 10..20 {
        assert!((f0[k].units - 220_000_000).abs() < 1_000_000, "frame {}: {:?}", k, f0[k]);
    }
    let (fine_t, fine) = run(1.0);
    assert_eq!(fine.len(), 151);
    assert_eq!(fine_t[150], fixed(0.15));
    for k in 0..31 {
        assert_eq!(f0[k], fine[5 * k]);
    }
}

#[test]
fn work_in_turn_is_like_any_other() {
    let x = tone(220.0, 8000, 1200);
    let one = harvest_in_turn(&x, 8000, &option(5.0), forward, inverse).unwrap();
    let other = harvest(&x, 8000, &option(5.0), listen_backwards, refine_backwards).unwrap();
    assert_eq!(one, other);
    assert_eq!(
        harvest_in_turn(&x, 0, &option(5.0), forward, inverse),
        Err(Fault::OutOfRange)
    );
    let none = |_: Vec<F>| -> Vec<Complex<F>> { vec![] };
    let silent = |_: Vec<Complex<F>>, _: usize| -> Vec<F> { vec![] };
    assert_eq!(harvest_in_turn(&x, 8000, &option(5.0), forward, silent), Err(Fault::Shape));
    assert_eq!(harvest_in_turn(&x, 8000, &option(5.0), none, silent), Err(Fault::Shape));
}

#[test]
fn arrays_of_fixed_point_recordings_have_their_estimates() {
    let mut flat: Vec<Fixed> = tone(220.0, 8000, 500).iter().map(|v| fixed(v.0)).collect();
    flat.extend(tone(150.0, 8000, 500).iter().map(|v| fixed(v.0)));
    let option = HarvestOption {
        f0_floor: fixed(71.0),
        f0_ceil: fixed(800.0),
        frame_period: fixed(5.0),
    };
    let hear = |a: &Analysis<Fixed>| -> Heard<Fixed> { a.hear_all(fixed_forward, fixed_inverse) };
    let narrow = |a: &Analysis<Fixed>, c: Vec<Vec<Fixed>>, n: usize| -> Refined<Fixed> {
        a.refine_all(&c, n, fixed_forward)
    };
    let one = |x: &[Fixed]| harvest_in_turn(x, 8000, &option, fixed_forward, fixed_inverse).unwrap();
    let first = one(&flat[..500]);
    let second = one(&flat[500..]);
    match harvest_array(&[2, 500], &flat, 8000, &option, hear, narrow) {
        Ok(ArrayEstimate::Rows(t, f0)) => {
            assert_eq!(t, vec![first.0.clone(), first.0.clone()]);
            assert_eq!(f0, vec![first.1.clone(), second.1]);
            assert_eq!(f0[0].len(), 13);
        }
        _ => panic!(),
    }
    match harvest_array(&[500], &flat[..500], 8000, &option, hear, narrow) {
        Ok(ArrayEstimate::Single(t, f0)) => assert_eq!((t, f0), first),
        _ => panic!(),
    }
}
