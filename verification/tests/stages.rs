use harvest_rs::basics::{get_suitable_fft_size, matlab_round, my_abs_i, my_max_i, my_min_f, my_min_i};
use harvest_rs::batch::{
    choose_channel, join_rows, read_shape, split_rows, ChannelError, Layout, LengthMismatch,
    ShapeError,
};
use harvest_rs::candidates::{
    detect_official_f0_candidates, detect_official_f0_candidates_sub1,
    detect_official_f0_candidates_sub2, overlap_f0_candidates,
};
use harvest_rs::contour::{
    fix_step1, fix_step2, fix_step4, remove_unreliable_candidates, search_f0_base, select_best_f0,
};
use harvest_rs::crossing::{
    check_event, get_f0_candidate_contour, get_f0_candidate_contour_sub,
    get_four_zero_crossing_intervals, zero_crossing_engine, ZeroCrossings,
};
use harvest_rs::decimate::{decimate_world, filter_for_decimate};
use harvest_rs::extension::{extend, extend_f0, Direction};
use harvest_rs::harvest::{
    checked_samples_for_harvest, conclude, count_frames, get_samples_for_harvest, resample,
    temporal_positions, voiced_frames, HarvestOption,
};
use harvest_rs::interpolation::interp1;
use harvest_rs::merging::{
    fix_f0_contour, fix_step3, make_sorted_order, merge_f0, merge_f0_sub, search_score,
};
use harvest_rs::refine::{
    begin_refinement, cut_frame, fix_f0, get_base_index, get_diff_window, get_main_window,
    get_mean_f0, get_refined_f0, Refinement,
};
use harvest_rs::scalar::Scalar;
use harvest_rs::sections::{get_boundary_list, get_multi_channel_f0};
use harvest_rs::smoothing::{filtering_f0, smooth_f0_contour};
use harvest_rs::spectrum::{
    band_pass_filter, fft_real, filter_length_half, filter_spectrum, get_filtered_signal,
    ifft_to_real_in_place, nuttall_window, Complex,
};
use harvest_rs::waveform::{get_waveform_and_spectrum, get_waveform_and_spectrum_sub};

const PI: f64 = 3.1415926535897932384;

#[derive(Clone, Copy, Debug, PartialEq)]
struct F(f64);

impl Scalar for F {
    fn from_int(n: i128) -> F {
        F(n as f64)
    }
    fn from_decimal(digits: i64, places: u32) -> F {
        F(format!("{}e-{}", digits, places).parse().unwrap())
    }
    fn plus(self, rhs: F) -> F {
        F(self.0 + rhs.0)
    }
    fn minus(self, rhs: F) -> F {
        F(self.0 - rhs.0)
    }
    fn times(self, rhs: F) -> F {
        F(self.0 * rhs.0)
    }
    fn over(self, rhs: F) -> F {
        F(self.0 / rhs.0)
    }
    fn negated(self) -> F {
        F(-self.0)
    }
    fn abs(self) -> F {
        F(self.0.abs())
    }
    fn floor(self) -> F {
        F(self.0.floor())
    }
    fn ceil(self) -> F {
        F(self.0.ceil())
    }
    fn cos(self) -> F {
        F(self.0.cos())
    }
    fn sqrt(self) -> F {
        F(self.0.sqrt())
    }
    fn ln(self) -> F {
        F(self.0.ln())
    }
    fn exp2(self) -> F {
        F(2.0_f64.powf(self.0))
    }
    fn less(self, rhs: F) -> bool {
        self.0 < rhs.0
    }
    fn at_most(self, rhs: F) -> bool {
        self.0 <= rhs.0
    }
    fn same(self, rhs: F) -> bool {
        self.0 == rhs.0
    }
    fn is_nan(self) -> bool {
        self.0.is_nan()
    }
    fn is_finite(self) -> bool {
        self.0.is_finite()
    }
    fn to_i32(self) -> i32 {
        self.0 as i32
    }
    fn to_usize(self) -> usize {
        self.0 as usize
    }
}

fn reals(x: &[f64]) -> Vec<F> {
    x.iter().map(|&v| F(v)).collect()
}


fn floats(x: &[F]) -> Vec<f64> {
    x.iter().map(|v| v.0).collect()
}

fn rows(x: &[&[f64]]) -> Vec<Vec<F>> {
    x.iter().map(|r| reals(r)).collect()
}

// Numbers.

#[test]
fn small_helpers() {
    assert_eq!(my_min_i(3, -2), -2);
    assert_eq!(my_max_i(3, -2), 3);
    assert_eq!(my_abs_i(-7), 7);
    assert_eq!(my_min_f(F(2.0), F(1.0)), F(1.0));
    assert!(my_min_f(F(1.0), F(f64::NAN)).0.is_nan());
    assert_eq!(check_event(3), 1);
    assert_eq!(check_event(0), 0);
    assert_eq!(check_event(-1), 0);
}

#[test]
fn rounding_takes_halves_away_from_zero() {
    assert_eq!(matlab_round(F(2.5)), 3);
    assert_eq!(matlab_round(F(-2.5)), -3);
    assert_eq!(matlab_round(F(2.4)), 2);
    for k in 0..50 {
        let x = k as f64 * 0.25;
        assert_eq!(matlab_round(F(-x)), -matlab_round(F(x)));
    }
    assert_eq!(matlab_round(F(f64::NAN)), 0);
    assert_eq!(matlab_round(F(1e20)), i32::MAX);
    assert_eq!(matlab_round(F(f64::NEG_INFINITY)), i32::MIN);
}

#[test]
fn transform_sizes_are_powers_of_two() {
    assert_eq!(get_suitable_fft_size(0), 1);
    assert_eq!(get_suitable_fft_size(1), 1);
    assert_eq!(get_suitable_fft_size(1000), 1024);
    assert_eq!(get_suitable_fft_size(1024), 1024);
    assert_eq!(get_suitable_fft_size(1025), 2048);
}

// Sections.

#[test]
fn boundaries_are_first_and_last_voiced_frames() {
    let f0 = reals(&[5.0, 0.0, 1.0, 2.0, 0.0, 0.0, 3.0, 0.0, 4.0, 4.0, 4.0]);
    let b = get_boundary_list(&f0);
    assert_eq!(b, vec![2, 3, 6, 6, 8, 9]);
    let multi = get_multi_channel_f0(&f0, &b);
    assert_eq!(multi.len(), 3);
    assert_eq!(
        floats(&multi[0]),
        vec![0.0, 0.0, 1.0, 2.0, 0.0, 0.0, 0.0, 0.0, 0.0, 0.0, 0.0]
    );
    assert_eq!(
        floats(&multi[2]),
        vec![0.0, 0.0, 0.0, 0.0, 0.0, 0.0, 0.0, 0.0, 4.0, 4.0, 0.0]
    );
    assert!(get_boundary_list(&reals(&[1.0])).is_empty());
    assert!(get_boundary_list::<F>(&[]).is_empty());
}

// Rate reduction.

fn decimation_filter_by_4(x: &[f64]) -> Vec<f64> {
    let (a0, a1, a2) = (1.4499664446880227, -0.98943497080950582, 0.24578252340690215);
    let (b0, b1) = (0.036710750339322612, 0.11013225101796784);
    let (mut w0, mut w1, mut w2) = (0.0, 0.0, 0.0);
    let mut y = Vec::new();
    for &v in x {
        let wt = v + a0 * w0 + a1 * w1 + a2 * w2;
        y.push(b0 * wt + b1 * w0 + b1 * w1 + b0 * w2);
        w2 = w1;
        w1 = w0;
        w0 = wt;
    }
    y
}

#[test]
fn the_low_pass_filter_follows_its_recursion() {
    let x = [1.0, -2.0, 0.5, 3.0, 0.25];
    let mut y = reals(&[9.0; 7]);
    filter_for_decimate(&reals(&x), 4, &mut y);
    let mut expected = decimation_filter_by_4(&x);
    expected.extend([9.0, 9.0]);
    assert_eq!(floats(&y), expected);
    let mut none = reals(&[9.0; 5]);
    filter_for_decimate(&reals(&x), 13, &mut none);
    assert_eq!(floats(&none), vec![0.0; 5]);
}

#[test]
fn the_first_output_of_each_low_pass_filter_is_its_first_coefficient() {
    let first = [
        (2, 0.16797464681802227),
        (3, 0.071221945171178636),
        (4, 0.036710750339322612),
        (5, 0.021334858522387423),
        (6, 0.013469181309343825),
        (7, 0.0090366882681608418),
        (8, 0.0063522763407111993),
        (9, 0.0046331164041389372),
        (10, 0.0034818622251927556),
        (11, 0.0026822508007163792),
        (12, 0.0021097275904709001),
    ];
    for (r, b0) in first {
        let mut y = reals(&[0.0]);
        filter_for_decimate(&reals(&[1.0]), r, &mut y);
        assert_eq!(y[0], F(b0));
    }
}

#[test]
fn every_fourth_sample_counted_from_the_last_is_kept() {
    let x: Vec<f64> = (0..22).map(|i| ((i * i) % 7) as f64 - 0.3 * i as f64).collect();
    let n = x.len();
    let mut ext = Vec::new();
    for i in 0..9 {
        ext.push(2.0 * x[0] - x[9 - i]);
    }
    ext.extend(&x);
    for j in 0..9 {
        ext.push(2.0 * x[n - 1] - x[n - 2 - j]);
    }
    let mut once = decimation_filter_by_4(&ext);
    once.reverse();
    let mut twice = decimation_filter_by_4(&once);
    twice.reverse();
    let mut y = reals(&[-1.0; 8]);
    decimate_world(&reals(&x), 4, &mut y);
    for k in 0..6 {
        assert_eq!(y[k].0, twice[9 + 1 + 4 * k]);
    }
    assert_eq!(floats(&y[6..]), vec![-1.0, -1.0]);
    let mut short = reals(&[-1.0; 2]);
    decimate_world(&reals(&x), 4, &mut short);
    assert_eq!(short[..], y[..2]);
}

#[test]
fn reduction_by_one_copies_and_an_empty_signal_changes_nothing() {
    let mut y = reals(&[7.0; 4]);
    decimate_world(&reals(&[1.0, 2.0]), 1, &mut y);
    assert_eq!(floats(&y), vec![1.0, 2.0, 7.0, 7.0]);
    decimate_world(&[], 3, &mut y);
    assert_eq!(floats(&y), vec![1.0, 2.0, 7.0, 7.0]);
}

#[test]
fn the_signal_is_held_beyond_its_ends_before_its_rate_is_reduced() {
    let x: Vec<f64> = (0..50).map(|i| ((i * 5) % 11) as f64).collect();
    let mut long = vec![x[0]; 141];
    long.extend(&x);
    long.extend(vec![x[49]; 141]);
    let mut reduced = reals(&vec![0.0; long.len()]);
    decimate_world(&reals(&long), 3, &mut reduced);
    let mut y = reals(&[0.0; 20]);
    get_waveform_and_spectrum_sub(&reals(&x), 17, 3, &mut y);
    assert_eq!(y[..17], reduced[47..64]);
    assert_eq!(floats(&y[17..]), vec![0.0; 3]);
}

#[test]
fn the_waveform_has_no_mean() {
    let y = get_waveform_and_spectrum(&reals(&[1.0, 2.0, 6.0]), 3, 5, 1);
    assert_eq!(floats(&y), vec![-2.0, -1.0, 3.0, 0.0, 0.0]);
}

// Spectra.

#[test]
fn the_nuttall_window_follows_its_formula() {
    let mut y = reals(&[5.0; 6]);
    nuttall_window(5, &mut y);
    for n in 0..5 {
        let x = 2.0 * PI * n as f64 / 4.0;
        let v = 0.355768 - 0.487396 * x.cos() + 0.144232 * (2.0 * x).cos() - 0.012604 * (3.0 * x).cos();
        assert_eq!(y[n].0, v);
    }
    assert_eq!(y[5].0, 5.0);
    nuttall_window(1, &mut y);
    assert_eq!(y[0].0, 1.0);
    nuttall_window(0, &mut y);
    assert_eq!(y[0].0, 1.0);
}

#[test]
fn the_band_pass_filter_is_a_windowed_cosine() {
    let (boundary, fs) = (400.0, 1000.0);
    assert_eq!(filter_length_half(F(boundary), F(fs)), 5);
    let h = band_pass_filter(F(boundary), 16, F(fs));
    let mut window = reals(&[0.0; 11]);
    nuttall_window(11, &mut window);
    for i in 0..11 {
        let k = i as f64 - 5.0;
        assert_eq!(h[i].0, window[i].0 * (2.0 * PI * boundary * k / fs).cos());
    }
    assert_eq!(floats(&h[11..]), vec![0.0; 5]);
    assert_eq!(filter_length_half(F(-400.0), F(fs)), 0);
}

#[test]
fn spectra_are_multiplied_bin_by_bin() {
    let a = [Complex { re: F(1.0), im: F(2.0) }, Complex { re: F(0.0), im: F(1.0) }];
    let b = [Complex { re: F(3.0), im: F(-1.0) }, Complex { re: F(0.0), im: F(1.0) }];
    let p = filter_spectrum(&a, &b);
    assert_eq!((p[0].re, p[0].im), (F(5.0), F(5.0)));
    assert_eq!((p[1].re, p[1].im), (F(-1.0), F(0.0)));
}

#[test]
fn signals_are_fitted_to_the_transform_and_scaled_after_it() {
    assert_eq!(floats(&fft_real(&reals(&[1.0, 2.0]), 4)), vec![1.0, 2.0, 0.0, 0.0]);
    assert_eq!(floats(&fft_real(&reals(&[1.0, 2.0, 3.0]), 2)), vec![1.0, 2.0]);
    let mut out = reals(&[9.0; 3]);
    ifft_to_real_in_place(&reals(&[4.0, 8.0]), 2, &mut out);
    assert_eq!(floats(&out), vec![2.0, 4.0, 9.0]);
}

#[test]
fn the_filtered_signal_is_shifted_by_half_the_filter() {
    let time: Vec<f64> = (0..16).map(|i| 16.0 * i as f64).collect();
    let s = get_filtered_signal(&reals(&time), F(400.0), 16, F(1000.0), 4);
    assert_eq!(floats(&s[..5]), vec![6.0, 7.0, 8.0, 9.0, 0.0]);
    assert_eq!(s.len(), 16);
}

// Zero crossings.

#[test]
fn intervals_lie_between_falling_zero_crossings() {
    let s = reals(&[1.0, -1.0, 1.0, 3.0, -1.0, 2.0, 0.0, -1.0]);
    let mut locations = reals(&[8.0]);
    let mut intervals = Vec::new();
    let n = zero_crossing_engine(&s, 8, F(100.0), &mut locations, &mut intervals);
    assert_eq!(n, 2);
    let e = [
        1.0 - 1.0 / (-2.0 + 1e-12),
        4.0 - 3.0 / (-4.0 + 1e-12),
        6.0 - 2.0 / (-2.0 + 1e-12),
    ];
    for i in 0..2 {
        assert_eq!(intervals[i].0, 100.0 / (e[i + 1] - e[i] + 1e-12));
        assert_eq!(locations[i].0, (e[i] + e[i + 1]) / 2.0 / 100.0);
    }
    let n = zero_crossing_engine(&s, 4, F(100.0), &mut locations, &mut intervals);
    assert_eq!(n, 0);
    assert_eq!(intervals.len(), 2);
}

#[test]
fn four_lists_of_intervals() {
    let x: Vec<f64> = (0..60).map(|i| (i as f64 * 0.7).sin()).collect();
    let mut s = reals(&x);
    let z = get_four_zero_crossing_intervals(&mut s, 60, F(10.0));
    let list = |v: &[f64]| {
        let mut locations = Vec::new();
        let mut intervals = Vec::new();
        let n = zero_crossing_engine(&reals(v), v.len(), F(10.0), &mut locations, &mut intervals);
        (n, locations, intervals)
    };
    let negated: Vec<f64> = x.iter().map(|v| -v).collect();
    let steps: Vec<f64> = negated.windows(2).map(|w| w[0] - w[1]).collect();
    let back: Vec<f64> = steps.iter().map(|v| -v).collect();
    assert_eq!(
        (z.number_of_negatives, z.negative_interval_locations, z.negative_intervals),
        list(&x)
    );
    assert_eq!(
        (z.number_of_positives, z.positive_interval_locations, z.positive_intervals),
        list(&negated)
    );
    assert_eq!((z.number_of_peaks, z.peak_interval_locations, z.peak_intervals), list(&steps));
    assert_eq!((z.number_of_dips, z.dip_interval_locations, z.dip_intervals), list(&back));
    assert_eq!(floats(&s[..59]), back);
    let none = get_four_zero_crossing_intervals(&mut reals(&[]), 0, F(10.0));
    assert_eq!(none.number_of_dips, 0);
}

#[test]
fn interpolation_extends_its_outermost_segments() {
    let x = reals(&[0.0, 1.0, 3.0]);
    let y = reals(&[0.0, 2.0, 3.0]);
    let xi = reals(&[-1.0, 0.5, f64::NAN, 2.0, 5.0]);
    let mut yi = reals(&[9.0; 6]);
    interp1(&x, &y, &xi, &mut yi);
    assert_eq!(floats(&yi), vec![-2.0, 1.0, 0.0, 2.5, 4.0, 9.0]);
    // The lookup never goes back, except to the first segment.
    let mut back = reals(&[9.0; 2]);
    interp1(&x, &y, &reals(&[2.0, 0.5]), &mut back);
    assert_eq!(floats(&back), vec![2.5, 1.75]);
    let mut none = reals(&[9.0; 2]);
    interp1(&x[..1], &y[..1], &xi, &mut none);
    assert_eq!(floats(&none), vec![0.0, 0.0]);
    let mut same = reals(&[9.0]);
    interp1(&reals(&[1.0, 1.0]), &reals(&[4.0, 6.0]), &reals(&[1.0]), &mut same);
    assert_eq!(floats(&same), vec![4.0]);
}

#[test]
fn values_out_of_bounds_are_not_accepted() {
    let a = reals(&[100.0, 109.0, 111.0, 89.0, 95.0]);
    let mut out = reals(&[7.0; 5]);
    get_f0_candidate_contour_sub(&a, &a, &a, &a, F(96.0), F(108.0), F(100.0), &mut out);
    assert_eq!(floats(&out), vec![100.0, 0.0, 0.0, 0.0, 0.0]);
}

fn crossings(number: usize) -> ZeroCrossings<F> {
    let t = vec![0.0, 0.1, 0.2];
    ZeroCrossings {
        negative_interval_locations: reals(&t),
        negative_intervals: reals(&[100.0, 102.0, 104.0]),
        number_of_negatives: number,
        positive_interval_locations: reals(&t),
        positive_intervals: reals(&[98.0, 98.0, 98.0]),
        number_of_positives: 3,
        peak_interval_locations: reals(&t),
        peak_intervals: reals(&[100.0, 100.0, 100.0]),
        number_of_peaks: 3,
        dip_interval_locations: reals(&t),
        dip_intervals: reals(&[102.0, 102.0, 102.0]),
        number_of_dips: 3,
    }
}

#[test]
fn a_channel_needs_three_intervals_of_each_sort() {
    let mut f0 = reals(&[7.0; 2]);
    get_f0_candidate_contour(
        &crossings(3),
        F(100.0),
        F(71.0),
        F(800.0),
        &reals(&[0.0, 0.2]),
        &mut f0,
    );
    assert_eq!(floats(&f0), vec![100.0, 101.0]);
    get_f0_candidate_contour(
        &crossings(2),
        F(100.0),
        F(71.0),
        F(800.0),
        &reals(&[0.0, 0.2]),
        &mut f0,
    );
    assert_eq!(floats(&f0), vec![0.0, 0.0]);
}

// Candidates.

#[test]
fn runs_are_found_by_their_ends() {
    let v = [false, true, true, false, true, false];
    let (st, ed) = detect_official_f0_candidates_sub1(&v);
    assert_eq!(st, vec![1, 4]);
    assert_eq!(ed, vec![3, 5]);
    assert_eq!(detect_official_f0_candidates_sub1(&[]), (vec![], vec![]));
}

#[test]
fn only_wide_runs_give_candidates() {
    let raw: Vec<Vec<F>> = (0..40).map(|c| reals(&[c as f64])).collect();
    let mut out = reals(&[9.0; 4]);
    let n = detect_official_f0_candidates_sub2(&raw, 0, &[1, 12, 25], &[11, 21, 36], 3, &mut out);
    assert_eq!(n, 2);
    assert_eq!(floats(&out), vec![5.5, 30.0, 0.0, 9.0]);
    let n = detect_official_f0_candidates_sub2(&raw, 0, &[1, 12, 25], &[11, 21, 36], 1, &mut out);
    assert_eq!(n, 1);
    let n = detect_official_f0_candidates_sub2(&raw, 0, &[1, 12, 25], &[11, 21, 36], 0, &mut out);
    assert_eq!(n, 1);
}

#[test]
fn the_outermost_channels_never_count() {
    let raw: Vec<Vec<F>> = (0..12).map(|c| reals(&[100.0 + c as f64, 0.0])).collect();
    let mut candidates = rows(&[&[9.0, 9.0], &[9.0, 9.0]]);
    let n = detect_official_f0_candidates(&raw, 12, 2, 2, &mut candidates);
    assert_eq!(n, 1);
    assert_eq!(floats(&candidates[0]), vec![105.5, 0.0]);
    assert_eq!(floats(&candidates[1]), vec![0.0, 0.0]);
    let n = detect_official_f0_candidates(&raw[..11].to_vec(), 11, 2, 2, &mut candidates);
    assert_eq!(n, 0);
    // Channels beyond the number asked for need no values.
    let mut longer = raw.clone();
    longer.push(vec![]);
    assert_eq!(detect_official_f0_candidates(&longer, 12, 2, 2, &mut candidates), 1);
}

#[test]
fn a_wide_run_takes_eleven_channels() {
    let raw: Vec<Vec<F>> = (0..34)
        .map(|c| reals(&[if c == 11 || c == 22 { 0.0 } else { 100.0 + c as f64 }]))
        .collect();
    let mut candidates = rows(&[&[9.0; 7]]);
    let n = detect_official_f0_candidates(&raw, 34, 1, 7, &mut candidates);
    assert_eq!(n, 3);
    assert_eq!(floats(&candidates[0]), vec![105.5, 116.5, 127.5, 0.0, 0.0, 0.0, 0.0]);
    let n = detect_official_f0_candidates(&raw[..33].to_vec(), 33, 1, 7, &mut candidates);
    assert_eq!(n, 2);
}

#[test]
fn frames_share_the_candidates_of_three_neighbours_on_either_side() {
    let mut c: Vec<Vec<F>> = (0..6)
        .map(|k| {
            let mut row = vec![F(-1.0); 15];
            row[0] = F(10.0 * k as f64);
            row[1] = F(10.0 * k as f64 + 1.0);
            row
        })
        .collect();
    overlap_f0_candidates(6, 2, &mut c);
    assert_eq!(
        floats(&c[2]),
        vec![
            20.0, 21.0, 10.0, 11.0, 0.0, 1.0, -1.0, -1.0, 30.0, 31.0, 40.0, 41.0, 50.0, 51.0, -1.0
        ]
    );
    assert_eq!(
        floats(&c[5]),
        vec![
            50.0, 51.0, 40.0, 41.0, 30.0, 31.0, 20.0, 21.0, -1.0, -1.0, -1.0, -1.0, -1.0, -1.0, -1.0
        ]
    );
}

#[test]
fn rows_without_room_for_neighbours_stay_as_they_are() {
    let mut c = rows(&[&[1.0], &[2.0, 3.0], &[]]);
    overlap_f0_candidates(3, 2, &mut c);
    assert_eq!(c, rows(&[&[1.0], &[2.0, 3.0], &[]]));
    let mut none: Vec<Vec<F>> = vec![];
    overlap_f0_candidates(5, 0, &mut none);
    assert!(none.is_empty());
}

#[test]
fn runs_beyond_the_limit_need_no_values() {
    let raw: Vec<Vec<F>> = (0..12).map(|c| reals(&[c as f64])).collect();
    let mut out = reals(&[9.0; 2]);
    let n = detect_official_f0_candidates_sub2(&raw, 0, &[1, 25], &[11, 36], 1, &mut out);
    assert_eq!(n, 1);
    assert_eq!(floats(&out), vec![5.5, 9.0]);
}

// Refinement.

#[test]
fn windows_and_their_slopes() {
    let mut index = vec![0; 3];
    get_base_index(F(0.1), F(-0.02), F(100.0), &mut index);
    assert_eq!(index, vec![8, 9, 10]);
    let mut window = reals(&[0.0; 3]);
    get_main_window(F(0.1), &index, F(100.0), F(0.05), &mut window);
    for i in 0..3 {
        let t = (index[i] as f64 - 1.0) / 100.0 - 0.1;
        let v = 0.42
            + 0.5 * (2.0 * PI * t / 0.05).cos()
            + 0.08 * (4.0 * PI * t / 0.05).cos();
        assert_eq!(window[i].0, v);
    }
    let mut slopes = reals(&[0.0; 4]);
    get_diff_window(&reals(&[1.0, 4.0, 9.0, 16.0]), &mut slopes);
    assert_eq!(floats(&slopes), vec![-2.0, -4.0, -6.0, 4.5]);
    get_diff_window(&reals(&[1.0]), &mut slopes);
    assert_eq!(floats(&slopes), vec![0.0; 4]);
}

#[test]
fn frames_hold_the_ends_of_the_signal() {
    let x = reals(&[1.0, 2.0, 3.0]);
    let w = reals(&[1.0, 10.0, 100.0, 1000.0]);
    let buf = cut_frame(&x, 6, &[0, 2, 3, 9], &w);
    assert_eq!(floats(&buf), vec![1.0, 20.0, 300.0, 3000.0, 0.0, 0.0]);
}

#[test]
fn a_candidate_that_is_not_positive_needs_no_spectra() {
    let x = reals(&[0.0; 10]);
    assert!(matches!(begin_refinement(&x, F(100.0), F(0.0), F(0.0)), Refinement::Unvoiced));
    assert!(matches!(begin_refinement(&x, F(100.0), F(0.0), F(-1.0)), Refinement::Unvoiced));
    assert!(matches!(begin_refinement(&x, F(100.0), F(0.0), F(1e-9)), Refinement::TooLong));
    match begin_refinement(&x, F(100.0), F(0.05), F(30.0)) {
        Refinement::Frames { fft_size, main, diff } => {
            // Six samples on either side of the centre.
            assert_eq!(fft_size, 32);
            assert_eq!(main.len(), 32);
            assert_eq!(diff.len(), 32);
        }
        _ => panic!(),
    }
}

#[test]
fn harmonics_are_weighed_by_their_amplitude() {
    let power = reals(&[0.0, 4.0, 9.0, 0.0]);
    let cross = reals(&[0.0, 0.1, -0.2, 0.0]);
    let (f0, score) = fix_f0(&power, &cross, 8, F(80.0), F(10.0), 3);
    let i1 = 1.0 * 80.0 / 8.0 + 0.1 / 4.0 * 80.0 / 2.0 / PI;
    let i2 = 2.0 * 80.0 / 8.0 + -0.2 / 9.0 * 80.0 / 2.0 / PI;
    let numer = 0.0 + 2.0 * i1 + 3.0 * i2 + 0.0 * 0.0;
    let denom = 0.0 + 2.0 * (0.0 + 1.0) + 3.0 * (1.0 + 1.0) + 0.0 * 3.0;
    assert_eq!(f0.0, numer / (denom + 1e-12));
    let s = 0.0
        + ((i1 / 1.0 - 10.0) / 10.0_f64).abs()
        + ((i2 / 2.0 - 10.0) / 10.0_f64).abs()
        + ((0.0 / 3.0 - 10.0) / 10.0_f64).abs();
    assert_eq!(score.0, 1.0 / (s / 3.0 + 1e-12));
}

#[test]
fn spectra_decide_and_bounds_hold() {
    let main: Vec<Complex<F>> =
        (0..5).map(|j| Complex { re: F(j as f64), im: F(1.0) }).collect();
    let diff: Vec<Complex<F>> =
        (0..5).map(|j| Complex { re: F(0.01), im: F(0.02 * j as f64) }).collect();
    let power: Vec<f64> = (0..5).map(|j| (j * j) as f64 + 1.0).collect();
    let cross: Vec<f64> = (0..5).map(|j| j as f64 * (0.02 * j as f64) - 1.0 * 0.01).collect();
    // The rate allows four harmonics of ten hertz.
    let expected = fix_f0(&reals(&power), &reals(&cross), 8, F(80.0), F(10.0), 4);
    assert_eq!(get_mean_f0(&main, &diff, 8, F(80.0), F(10.0)), expected);
    let (f0, score) = expected;
    assert!(score.0 > 2.5);
    let refined = |floor: f64, ceil: f64| get_refined_f0(&main, &diff, 8, F(80.0), F(10.0), F(floor), F(ceil));
    assert_eq!(refined(1.0, 100.0), expected);
    assert_eq!(refined(f0.0 + 1.0, 100.0), (F(0.0), F(0.0)));
    assert_eq!(refined(1.0, f0.0 - 1.0), (F(0.0), F(0.0)));
    // At a fifth of the frequency the score is too low.
    assert!(get_mean_f0(&main, &diff, 8, F(80.0), F(2.0)).1 .0 < 2.5);
    assert_eq!(
        get_refined_f0(&main, &diff, 8, F(80.0), F(2.0), F(-100.0), F(100.0)),
        (F(0.0), F(0.0))
    );
}

// The contour.

#[test]
fn the_nearest_candidate_is_selected() {
    let c = reals(&[0.0, 90.0, 104.0, 97.0]);
    let (best, error) = select_best_f0(F(100.0), &c, F(1.0));
    assert_eq!(best, F(97.0));
    assert_eq!(error.0, 3.0 / (100.0 + 1e-12));
    assert_eq!(select_best_f0(F(100.0), &c, F(0.01)), (F(0.0), F(0.01)));
}

#[test]
fn of_candidates_equally_near_the_last_is_selected() {
    let c = reals(&[104.0, 96.0, -100.0, 90.0]);
    assert_eq!(select_best_f0(F(100.0), &c, F(1.0)).0, F(96.0));
    let c = reals(&[96.0, 104.0]);
    assert_eq!(select_best_f0(F(100.0), &c, F(1.0)).0, F(104.0));
}

#[test]
fn of_equal_scores_the_first_is_taken() {
    let c = rows(&[&[100.0, 200.0, 300.0], &[110.0, 210.0, 310.0], &[120.0, 220.0, 320.0]]);
    let s = rows(&[&[4.0, 4.0, 3.0], &[1.0, 5.0, 5.0], &[-1.0, 0.0, -2.0]]);
    assert_eq!(floats(&search_f0_base(&c, &s, 3, 3)), vec![100.0, 210.0, 0.0]);
}

#[test]
fn candidates_without_continuation_are_dropped() {
    let mut c = rows(&[&[100.0], &[101.0], &[150.0], &[102.0], &[103.0]]);
    let mut s = rows(&[&[5.0], &[5.0], &[9.0], &[5.0], &[5.0]]);
    remove_unreliable_candidates(&mut c, &mut s, 5, 1);
    assert_eq!(c, rows(&[&[100.0], &[101.0], &[0.0], &[102.0], &[103.0]]));
    assert_eq!(s, rows(&[&[5.0], &[5.0], &[0.0], &[5.0], &[5.0]]));
}

#[test]
fn the_base_takes_the_best_score() {
    let c = rows(&[&[100.0, 200.0], &[110.0, 210.0], &[120.0, 220.0]]);
    let s = rows(&[&[3.0, 4.0], &[5.0, 4.0], &[0.0, 0.0]]);
    assert_eq!(floats(&search_f0_base(&c, &s, 3, 2)), vec![200.0, 110.0, 0.0]);
}

#[test]
fn jumps_are_removed() {
    let f0 = reals(&[100.0, 100.0, 100.0, 150.0, 150.5, 0.0, 100.0]);
    assert_eq!(
        floats(&fix_step1(&f0, F(0.008))),
        vec![0.0, 0.0, 100.0, 0.0, 150.5, 0.0, 0.0]
    );
}

#[test]
fn short_sections_are_removed() {
    let f0 = reals(&[0.0, 1.0, 1.0, 0.0, 2.0, 2.0, 2.0, 0.0]);
    assert_eq!(
        floats(&fix_step2(&f0, 2)),
        vec![0.0, 0.0, 0.0, 0.0, 2.0, 2.0, 2.0, 0.0]
    );
}

#[test]
fn short_gaps_are_bridged() {
    let f0 = reals(&[0.0, 10.0, 10.0, 0.0, 0.0, 16.0, 16.0, 0.0, 0.0, 0.0, 9.0, 0.0]);
    let out = fix_step4(&f0, 3);
    let slope = (15.0 - 11.0) / (2.0 + 1.0);
    assert_eq!(out[3].0, 11.0 + slope * 1.0);
    assert_eq!(out[4].0, 11.0 + slope * 2.0);
    assert_eq!(floats(&out[5..]), floats(&f0[5..]));
}

#[test]
fn a_section_grows_along_its_candidates() {
    let c = rows(&[&[0.0], &[99.0], &[100.0], &[101.0], &[102.0], &[0.0], &[0.0], &[0.0], &[0.0]]);
    let mut f0 = reals(&[0.0, 0.0, 100.0, 100.0, 0.0, 0.0, 0.0, 0.0, 0.0]);
    let end = extend_f0(&mut f0, 3, 7, Direction::Forward, &c, 1, F(0.18));
    assert_eq!(end, 4);
    let start = extend_f0(&mut f0, 2, 1, Direction::Backward, &c, 1, F(0.18));
    assert_eq!(start, 1);
    assert_eq!(floats(&f0), vec![0.0, 99.0, 100.0, 100.0, 102.0, 0.0, 0.0, 0.0, 0.0]);
}

#[test]
fn growth_stops_after_four_misses() {
    let c = rows(&[&[100.0], &[100.0], &[0.0], &[0.0], &[0.0], &[0.0], &[100.0], &[100.0]]);
    let mut f0 = reals(&[0.0, 100.0, 5.0, 5.0, 5.0, 5.0, 5.0, 5.0]);
    let end = extend_f0(&mut f0, 1, 7, Direction::Forward, &c, 1, F(0.18));
    assert_eq!(end, 1);
    assert_eq!(floats(&f0), vec![0.0, 100.0, 0.0, 0.0, 0.0, 0.0, 5.0, 5.0]);
}

#[test]
fn only_long_sections_are_kept() {
    let n = 40;
    let c: Vec<Vec<F>> = (0..n).map(|_| reals(&[0.0])).collect();
    let mut short = vec![F(0.0); n];
    let mut long = vec![F(0.0); n];
    for p in 2..6 {
        short[p] = F(220.0);
    }
    for p in 10..31 {
        long[p] = F(220.0);
    }
    let mut multi = vec![short, long.clone()];
    let mut bounds = vec![2, 5, 10, 30];
    let count = extend(&mut multi, &mut bounds, n, &c, 1, F(0.18));
    assert_eq!(count, 1);
    assert_eq!(&bounds[..2], &[10, 30]);
    assert_eq!(multi[0], long);
}

#[test]
fn sections_are_ordered_by_their_start() {
    assert_eq!(make_sorted_order(&[5, 9, 1, 3, 5, 6], 3), vec![1, 0, 2]);
    // Only the starts are read.
    assert_eq!(make_sorted_order(&[5, 9, 1, 3, 4], 3), vec![1, 2, 0]);
    assert!(make_sorted_order(&[], 0).is_empty());
}

#[test]
fn scores_are_found_by_frequency() {
    let c = reals(&[100.0, 200.0, 100.0]);
    let s = reals(&[3.0, 9.0, 5.0]);
    assert_eq!(search_score(F(100.0), &c, &s, 3), F(5.0));
    assert_eq!(search_score(F(100.0), &c, &s, 2), F(3.0));
    assert_eq!(search_score(F(1.0), &c, &s, 3), F(0.0));
}

#[test]
fn overlapping_sections_are_joined_by_their_scores() {
    let c: Vec<Vec<F>> = (0..8).map(|_| reals(&[1.0, 2.0])).collect();
    let first = vec![1.0, 1.0, 1.0, 1.0, 1.0, 0.0, 0.0, 0.0];
    let second = reals(&[0.0, 0.0, 0.0, 2.0, 2.0, 2.0, 2.0, 0.0]);
    let better_first: Vec<Vec<F>> = (0..8).map(|_| reals(&[5.0, 3.0])).collect();
    let mut merged = reals(&first);
    assert_eq!(merge_f0_sub(&mut merged, 0, 4, &second, 3, 6, &c, &better_first, 2), 6);
    assert_eq!(floats(&merged), vec![1.0, 1.0, 1.0, 1.0, 2.0, 2.0, 2.0, 0.0]);
    let better_second: Vec<Vec<F>> = (0..8).map(|_| reals(&[3.0, 5.0])).collect();
    let mut merged = reals(&first);
    assert_eq!(merge_f0_sub(&mut merged, 0, 4, &second, 3, 6, &c, &better_second, 2), 6);
    assert_eq!(floats(&merged), vec![1.0, 1.0, 1.0, 2.0, 2.0, 2.0, 2.0, 0.0]);
    // A section within another changes nothing.
    let mut merged = reals(&first);
    assert_eq!(merge_f0_sub(&mut merged, 0, 6, &second, 3, 6, &c, &better_second, 2), 6);
    assert_eq!(floats(&merged), first);
}

#[test]
fn separate_sections_are_laid_side_by_side() {
    let c: Vec<Vec<F>> = (0..8).map(|_| reals(&[0.0])).collect();
    let multi = rows(&[
        &[0.0, 1.0, 1.0, 0.0, 0.0, 0.0, 0.0, 0.0],
        &[0.0, 0.0, 0.0, 0.0, 0.0, 2.0, 2.0, 0.0],
    ]);
    let mut bounds = vec![1, 2, 5, 6];
    let merged = merge_f0(&multi, &mut bounds, 2, 8, &c, &c, 1);
    assert_eq!(floats(&merged), vec![0.0, 1.0, 1.0, 0.0, 0.0, 2.0, 2.0, 0.0]);
    assert_eq!(&bounds[..2], &[5, 6]);
    // With no section to merge the first contour is taken.
    let first = merge_f0(&multi, &mut vec![], 0, 8, &c, &c, 1);
    assert_eq!(first, multi[0]);
}

#[test]
fn a_section_may_touch_either_end() {
    let c: Vec<Vec<F>> = (0..30).map(|_| reals(&[220.0])).collect();
    let mut multi = vec![vec![F(220.0); 30]];
    let mut bounds = vec![0, 29];
    assert_eq!(extend(&mut multi, &mut bounds, 30, &c, 1, F(0.18)), 1);
    assert_eq!(bounds, vec![0, 29]);
}

#[test]
fn a_steady_contour_survives_all_steps() {
    let n = 60;
    let c: Vec<Vec<F>> =
        (0..n).map(|k| reals(&[if (15..45).contains(&k) { 200.0 } else { 0.0 }])).collect();
    let s: Vec<Vec<F>> =
        (0..n).map(|k| reals(&[if (15..45).contains(&k) { 9.0 } else { 0.0 }])).collect();
    let contour = fix_f0_contour(&c, &s, n, 1);
    for k in 0..n {
        let expected = if (15..45).contains(&k) { 200.0 } else { 0.0 };
        assert_eq!(contour[k].0, expected, "frame {}", k);
    }
    let step3 = fix_step3(&contour, 1, &c, F(0.18), &s);
    assert_eq!(step3, contour);
    let f0 = conclude(&mut c.clone(), &mut s.clone(), n, 1);
    for k in 0..n {
        if (15..45).contains(&k) {
            assert!((f0[k].0 - 200.0).abs() < 1e-6);
        } else {
            assert_eq!(f0[k].0, 0.0);
        }
    }
    assert_eq!(voiced_frames(&f0), 30);
}

// Smoothing.

fn smoothing_pass(x: &[f64]) -> Vec<f64> {
    let b = [0.0078202080334971724, 0.015640416066994345];
    let a = [1.7347257688092754, -0.76600660094326412];
    let mut w = [0.0, 0.0];
    let mut y = Vec::new();
    for &v in x {
        let wt = v + a[0] * w[0] + a[1] * w[1];
        y.push(b[0] * wt + b[1] * w[0] + b[0] * w[1]);
        w[1] = w[0];
        w[0] = wt;
    }
    y.reverse();
    y
}

#[test]
fn smoothing_goes_both_ways_over_held_ends() {
    let f0 = [0.0, 100.0, 104.0, 103.0, 0.0, 50.0, 0.0];
    let mut out = reals(&[0.0; 7]);
    smooth_f0_contour(&reals(&f0), &mut out);
    let mut held = vec![100.0; 302];
    held.push(104.0);
    held.extend(vec![103.0; 607 - 303]);
    let smooth = smoothing_pass(&smoothing_pass(&held));
    assert_eq!(floats(&out[..5]), vec![0.0, smooth[301], smooth[302], smooth[303], 0.0]);
    let flat = smoothing_pass(&smoothing_pass(&vec![50.0; 607]));
    assert_eq!(floats(&out[5..]), vec![flat[305], 0.0]);
}

#[test]
fn filtering_holds_the_section_that_it_is_given() {
    let b = [F(0.0078202080334971724), F(0.015640416066994345)];
    let a = [F(1.7347257688092754), F(-0.76600660094326412)];
    let mut x = reals(&[0.0, 0.0, 3.0, 4.0, 0.0]);
    let y = filtering_f0(&a, &b, &mut x, 2, 3);
    assert_eq!(floats(&x), vec![3.0, 3.0, 3.0, 4.0, 4.0]);
    assert_eq!(floats(&y), smoothing_pass(&smoothing_pass(&floats(&x))));
}

// The whole.

#[test]
fn frames_are_counted() {
    assert_eq!(get_samples_for_harvest(16000, 16000, F(5.0)), 201);
    assert_eq!(get_samples_for_harvest(44100, 44099, F(1.0)), 1000);
    assert_eq!(checked_samples_for_harvest(16000, 0, F(5.0)), Some(1));
    for n in 1..400 {
        let fewer = get_samples_for_harvest(7919, n - 1, F(0.7));
        assert!(fewer <= get_samples_for_harvest(7919, n, F(0.7)));
    }
    assert_eq!(checked_samples_for_harvest(0, 10, F(5.0)), None);
    assert_eq!(floats(&temporal_positions(3, F(5.0))), vec![0.0, 0.005, 0.01]);
    let c = count_frames(16000, 16000, F(5.0)).unwrap();
    assert_eq!((c.basic, c.own), (1001, 201));
    assert!(count_frames(0, 10, F(5.0)).is_none());
    assert!(count_frames(16000, 10, F(0.0)).is_none());
    // Just above one millisecond a frame is missing.
    assert!(count_frames(1000, 3, F(1.0 + 1e-13)).is_none());
}

#[test]
fn defaults() {
    let o = HarvestOption::<F>::default();
    assert_eq!((o.f0_floor, o.f0_ceil, o.frame_period), (F(71.0), F(800.0), F(5.0)));
}

#[test]
fn frames_one_millisecond_apart_are_taken_as_they_are() {
    let basic = reals(&[0.0, 1.0, 2.0, 3.0]);
    let option = HarvestOption { f0_floor: F(71.0), f0_ceil: F(800.0), frame_period: F(1.0) };
    let (t, f0) = resample(&basic, 1000, 3, &option);
    assert_eq!(floats(&t), vec![0.0, 0.001, 0.002, 0.003]);
    assert_eq!(f0, basic);
}

#[test]
fn frames_further_apart_take_the_nearest() {
    let basic = reals(&[0.0, 1.0, 2.0, 3.0, 4.0]);
    let option = HarvestOption { f0_floor: F(71.0), f0_ceil: F(800.0), frame_period: F(1.5) };
    let (t, f0) = resample(&basic, 1000, 4, &option);
    assert_eq!(floats(&t), vec![0.0, 0.0015, 0.003]);
    assert_eq!(floats(&f0), vec![0.0, 2.0, 3.0]);
}

// Recordings and arrays.

#[test]
fn channels_are_tested() {
    assert_eq!(choose_channel(2, 1), Ok(1));
    assert_eq!(choose_channel(0, 0), Err(ChannelError::NoSamples));
    assert_eq!(
        choose_channel(2, 2),
        Err(ChannelError::OutOfRange { channel: 2, channels: 2 })
    );
}

#[test]
fn shapes_are_tested() {
    assert_eq!(read_shape(&[7]), Ok(Layout::Single { seq: 7 }));
    assert_eq!(read_shape(&[0]), Err(ShapeError::EmptySequence));
    assert_eq!(read_shape(&[2, 7]), Ok(Layout::Rows { rows: 2, seq: 7 }));
    assert_eq!(read_shape(&[0, 7]), Ok(Layout::Nothing));
    assert_eq!(read_shape(&[0, 0]), Err(ShapeError::EmptySequence));
    assert_eq!(read_shape(&[]), Err(ShapeError::Dimensions(0)));
    assert_eq!(read_shape(&[1, 2, 3]), Err(ShapeError::Dimensions(3)));
}

#[test]
fn rows_are_split_and_joined() {
    assert_eq!(split_rows(&[1, 2, 3, 4, 5, 6], 3, 2), vec![vec![1, 2], vec![3, 4], vec![5, 6]]);
    let t = reals(&[0.0, 0.005]);
    let even = rows(&[&[1.0, 2.0], &[3.0, 4.0], &[5.0, 6.0]]);
    assert_eq!(join_rows(&t, &even), Ok(vec![t.clone(), t.clone(), t.clone()]));
    let uneven = rows(&[&[1.0, 2.0], &[3.0, 4.0], &[5.0]]);
    assert_eq!(
        join_rows(&t, &uneven),
        Err(LengthMismatch { expected: 2, row: 2, found: 1 })
    );
}
