//! Refinement of a frequency candidate by the instantaneous frequencies of its
//! harmonics. Two windowed frames of the waveform are transformed elsewhere; this
//! module cuts the frames and draws the conclusion from their spectra.
use crate::basics::{
    at_least_zero, circle, clip_below_zero, filled, guard, is_power_of_two, matlab_round, my_max_i,
    my_min_i, nought, pi, rounded, safe_guard, zero,
};
use crate::scalar::Scalar;
use crate::spectrum::Complex;
use vstd::arithmetic::power2::{lemma_pow2_adds, lemma2_to64, pow2};
use vstd::prelude::*;

verus! {

/// The sample index, counted from 1, of the first sample of a window that starts
/// `first` after `position`.
pub open spec fn basic_index<T: Scalar>(position: T, first: T, fs: T) -> i32 {
    rounded((position + first) * fs + T::of_decimal(1, 3))
}

/// `n` consecutive indices from `basic` on.
pub open spec fn indices_from(basic: int, n: nat) -> Seq<i32> {
    Seq::new(n, |i: int| (basic + i) as i32)
}

/// Numbers the samples of a window that starts `first_time` after the position.
pub fn get_base_index<T: Scalar>(
    current_position: T,
    first_time: T,
    fs: T,
    base_index: &mut Vec<i32>,
)
    requires
        basic_index(current_position, first_time, fs) + old(base_index)@.len() <= i32::MAX + 1,
    ensures
        final(base_index)@ == indices_from(
            basic_index(current_position, first_time, fs) as int,
            old(base_index)@.len(),
        ),
{
    let basic: i32 = matlab_round(
        current_position.plus(first_time).times(fs).plus(T::from_decimal(1, 3)),
    );
    let n: usize = base_index.len();
    for i in 0..n
        invariant
            n == base_index@.len(),
            basic + n <= i32::MAX + 1,
            forall|k: int| 0 <= k < i ==> #[trigger] base_index@[k] == basic + k,
    {
        base_index[i] = (basic as i64 + i as i64) as i32;
    }
    assert(base_index@ =~= indices_from(basic as int, n as nat));
}

/// The window at sample `index`, `length` long in time and centred at `position`.
pub open spec fn main_sample<T: Scalar>(position: T, index: int, fs: T, length: T) -> T {
    let t = (T::of_int(index) - T::of_int(1)) / fs - position;
    (T::of_decimal(42, 2) + T::of_decimal(5, 1) * (((T::of_int(2) * circle::<T>()) * t)
        / length).cosine()) + T::of_decimal(8, 2) * (((T::of_int(4) * circle::<T>()) * t)
        / length).cosine()
}

/// The window at each of the given sample indices.
pub open spec fn main_samples<T: Scalar>(position: T, index: Seq<i32>, fs: T, length: T) -> Seq<T> {
    Seq::new(index.len(), |i: int| main_sample(position, index[i] as int, fs, length))
}

/// Fills the window for the given sample indices.
pub fn get_main_window<T: Scalar>(
    current_position: T,
    base_index: &[i32],
    fs: T,
    window_length_in_time: T,
    main_window: &mut Vec<T>,
)
    requires
        old(main_window)@.len() <= base_index@.len(),
    ensures
        final(main_window)@ == main_samples(
            current_position,
            base_index@,
            fs,
            window_length_in_time,
        ).take(old(main_window)@.len() as int),
{
    let n: usize = main_window.len();
    let one: T = T::from_int(1);
    let c0: T = T::from_decimal(42, 2);
    let c1: T = T::from_decimal(5, 1);
    let c2: T = T::from_decimal(8, 2);
    let turn: T = T::from_int(2).times(pi());
    let turns: T = T::from_int(4).times(pi());
    for i in 0..n
        invariant
            one == T::of_int(1),
            c0 == T::of_decimal(42, 2),
            c1 == T::of_decimal(5, 1),
            c2 == T::of_decimal(8, 2),
            turn == T::of_int(2) * circle::<T>(),
            turns == T::of_int(4) * circle::<T>(),
            n == main_window@.len() <= base_index@.len(),
            forall|k: int|
                0 <= k < i ==> #[trigger] main_window@[k] == main_sample(
                    current_position,
                    base_index@[k] as int,
                    fs,
                    window_length_in_time,
                ),
    {
        let t: T = T::from_int(base_index[i] as i128).minus(one).over(fs).minus(current_position);
        main_window[i] =
        c0.plus(c1.times(turn.times(t).over(window_length_in_time).cos())).plus(
            c2.times(turns.times(t).over(window_length_in_time).cos()),
        );
    }
    assert(main_window@ =~= main_samples(
        current_position,
        base_index@,
        fs,
        window_length_in_time,
    ).take(n as int));
}

/// The negated slope of a window at each sample, the window being zero beyond its
/// ends.
pub open spec fn slopes<T: Scalar>(w: Seq<T>) -> Seq<T> {
    let n = w.len() as int;
    Seq::new(
        w.len(),
        |i: int|
            if i == 0 {
                -w[1] / T::of_int(2)
            } else if i < n - 1 {
                -(w[i + 1] - w[i - 1]) / T::of_int(2)
            } else {
                w[n - 2] / T::of_int(2)
            },
    )
}

/// What the slopes of `w` leave of `d`: zeros where the lengths differ or there
/// are fewer than two samples.
pub open spec fn diff_samples<T: Scalar>(w: Seq<T>, d: Seq<T>) -> Seq<T> {
    if w.len() != d.len() || w.len() < 2 {
        Seq::new(d.len(), |i: int| zero::<T>())
    } else {
        slopes(w)
    }
}

/// Fills the slopes of the window.
pub fn get_diff_window<T: Scalar>(main_window: &[T], diff_window: &mut Vec<T>)
    ensures
        final(diff_window)@ == diff_samples(main_window@, old(diff_window)@),
{
    let n: usize = main_window.len();
    let size: usize = diff_window.len();
    if n != size || n < 2 {
        let o: T = nought();
        for i in 0..size
            invariant
                o == zero::<T>(),
                size == diff_window@.len(),
                forall|k: int| 0 <= k < i ==> #[trigger] diff_window@[k] == zero::<T>(),
        {
            diff_window[i] = o;
        }
        return;
    }
    let two: T = T::from_int(2);
    diff_window[0] = main_window[1].negated().over(two);
    for i in 1..n - 1
        invariant
            two == T::of_int(2),
            2 <= n == main_window@.len() == diff_window@.len(),
            forall|k: int| 0 <= k < i ==> #[trigger] diff_window@[k] == slopes(main_window@)[k],
    {
        diff_window[i] = main_window[i + 1].minus(main_window[i - 1]).negated().over(two);
    }
    diff_window[n - 1] = main_window[n - 2].over(two);
    assert(diff_window@ =~= slopes(main_window@));
}

/// The sample of `x` with index `index`, the first or the last where there is
/// none.
pub open spec fn sample_near<T>(x: Seq<T>, index: int) -> T {
    x[if index - 1 >= x.len() - 1 {
        x.len() - 1
    } else if index - 1 > 0 {
        index - 1
    } else {
        0
    }]
}

/// The samples of `x` at `index`, each times its entry of `window`, then zeros.
pub open spec fn windowed<T: Scalar>(
    x: Seq<T>,
    fft_size: nat,
    index: Seq<i32>,
    window: Seq<T>,
) -> Seq<T> {
    Seq::new(
        fft_size,
        |i: int|
            if i < index.len() {
                sample_near(x, index[i] as int) * window[i]
            } else {
                zero::<T>()
            },
    )
}

/// Cuts one frame out of `x`.
pub fn cut_frame<T: Scalar>(
    x: &[T],
    fft_size: usize,
    base_index: &[i32],
    window: &[T],
) -> (buf: Vec<T>)
    requires
        0 < x@.len() <= i32::MAX,
        base_index@.len() <= fft_size,
        base_index@.len() <= window@.len(),
        forall|i: int| 0 <= i < base_index@.len() ==> i32::MIN < #[trigger] base_index@[i],
    ensures
        buf@ == windowed(x@, fft_size as nat, base_index@, window@),
{
    let x_length: usize = x.len();
    let mut buf: Vec<T> = filled(fft_size, nought());
    for i in 0..base_index.len()
        invariant
            0 < x_length == x@.len() <= i32::MAX,
            base_index@.len() <= fft_size == buf@.len(),
            base_index@.len() <= window@.len(),
            forall|k: int| 0 <= k < base_index@.len() ==> i32::MIN < #[trigger] base_index@[k],
            forall|k: int|
                0 <= k < fft_size ==> #[trigger] buf@[k] == if k < i {
                    sample_near(x@, base_index@[k] as int) * window@[k]
                } else {
                    zero::<T>()
                },
    {
        let idx: usize = my_max_i(0, my_min_i(x_length as i32 - 1, base_index[i] - 1)) as usize;
        buf[i] = x[idx].times(window[i]);
    }
    assert(buf@ =~= windowed(x@, fft_size as nat, base_index@, window@));
    buf
}

/// The largest power of two not above `n`.
pub open spec fn power_below(n: int) -> int
    decreases n,
{
    if n < 2 {
        1
    } else {
        2 * power_below(n / 2)
    }
}

/// Law: `power_below(n)` is a power of two, not above `n`, and its double is.
pub proof fn law_power_below(n: int)
    requires
        1 <= n,
    ensures
        is_power_of_two(power_below(n)),
        power_below(n) <= n < 2 * power_below(n),
    decreases n,
{
    lemma2_to64();
    if n < 2 {
        assert(pow2(0) == 1);
    } else {
        law_power_below(n / 2);
        let k = choose|k: nat| power_below(n / 2) == #[trigger] pow2(k);
        lemma_pow2_adds(k, 1);
        assert(power_below(n) == pow2(k + 1));
    }
}

fn largest_power_below(n: usize) -> (p: usize)
    requires
        1 <= n,
    ensures
        p == power_below(n as int),
        p <= n,
    decreases n,
{
    proof {
        law_power_below(n as int);
    }
    if n < 2 {
        1
    } else {
        2 * largest_power_below(n / 2)
    }
}

/// Half the length of the window for frequency `f0`: one and a half periods.
pub open spec fn half_window<T: Scalar>(fs: T, f0: T) -> int {
    ((T::of_decimal(15, 1) * fs) / f0 + T::of_int(1)).as_usize() as int
}

/// The length of the window for frequency `f0`.
pub open spec fn window_length<T: Scalar>(fs: T, f0: T) -> int {
    2 * half_window(fs, f0) + 1
}

/// The length of the transform for a window of `n` samples.
pub open spec fn transform_length(n: int) -> int {
    4 * power_below(n)
}

/// When the window for frequency `f0` starts, relative to its centre.
pub open spec fn first_time<T: Scalar>(fs: T, f0: T) -> T {
    (-T::of_int(half_window(fs, f0)) + T::of_int(0)) / fs
}

/// Whether the indices of the samples of the window are within the range of
/// `i32`, and the length of its transform within that of `usize`.
pub open spec fn manageable<T: Scalar>(fs: T, position: T, f0: T) -> bool {
    &&& window_length(fs, f0) <= i32::MAX
    &&& 4 * window_length(fs, f0) <= usize::MAX
    &&& i32::MIN < basic_index(position, first_time(fs, f0), fs)
    &&& basic_index(position, first_time(fs, f0), fs) + window_length(fs, f0) <= i32::MAX + 1
}

/// The indices of the samples of the window.
pub open spec fn window_indices<T: Scalar>(fs: T, position: T, f0: T) -> Seq<i32> {
    indices_from(
        basic_index(position, first_time(fs, f0), fs) as int,
        window_length(fs, f0) as nat,
    )
}

/// The window itself.
pub open spec fn main_window_for<T: Scalar>(fs: T, position: T, f0: T) -> Seq<T> {
    main_samples(
        position,
        window_indices(fs, position, f0),
        fs,
        T::of_int(window_length(fs, f0)) / fs,
    )
}

/// The frame of `x` under the window.
pub open spec fn main_frame<T: Scalar>(x: Seq<T>, fs: T, position: T, f0: T) -> Seq<T> {
    windowed(
        x,
        transform_length(window_length(fs, f0)) as nat,
        window_indices(fs, position, f0),
        main_window_for(fs, position, f0),
    )
}

/// The frame of `x` under the slopes of the window.
pub open spec fn diff_frame<T: Scalar>(x: Seq<T>, fs: T, position: T, f0: T) -> Seq<T> {
    windowed(
        x,
        transform_length(window_length(fs, f0)) as nat,
        window_indices(fs, position, f0),
        diff_samples(main_window_for(fs, position, f0), main_window_for(fs, position, f0)),
    )
}

/// What a candidate needs in order to be refined.
pub enum Refinement<T> {
    /// Nothing: the candidate is not positive, and both its frequency and its
    /// score become zero.
    Unvoiced,
    /// The spectra of two frames, each `fft_size` long.
    Frames { fft_size: usize, main: Vec<T>, diff: Vec<T> },
    /// More than can be had: the window exceeds the range of the indices.
    TooLong,
}

/// Cuts the frames whose spectra decide on the candidate `current_f0` at
/// `current_position`.
pub fn begin_refinement<T: Scalar>(x: &[T], fs: T, current_position: T, current_f0: T) -> (r:
    Refinement<T>)
    requires
        0 < x@.len() <= i32::MAX,
    ensures
        match r {
            Refinement::Unvoiced => current_f0 <= zero::<T>(),
            Refinement::Frames { fft_size, main, diff } => {
                &&& !(current_f0 <= zero::<T>())
                &&& manageable(fs, current_position, current_f0)
                &&& fft_size == transform_length(window_length(fs, current_f0))
                &&& main@ == main_frame(x@, fs, current_position, current_f0)
                &&& diff@ == diff_frame(x@, fs, current_position, current_f0)
            },
            Refinement::TooLong => {
                &&& !(current_f0 <= zero::<T>())
                &&& !manageable(fs, current_position, current_f0)
            },
        },
{
    if current_f0.at_most(nought()) {
        return Refinement::Unvoiced;
    }
    let half_window_length: usize = T::from_decimal(15, 1).times(fs).over(current_f0).plus(
        T::from_int(1),
    ).to_usize();
    if half_window_length > 1_073_741_823 {
        return Refinement::TooLong;
    }
    let len: usize = half_window_length * 2 + 1;
    if len > usize::MAX / 4 {
        return Refinement::TooLong;
    }
    let o: T = nought();
    let first: T = T::from_int(half_window_length as i128).negated().plus(o).over(fs);
    let basic: i32 = matlab_round(
        current_position.plus(first).times(fs).plus(T::from_decimal(1, 3)),
    );
    if basic == i32::MIN || basic as i64 + len as i64 > i32::MAX as i64 + 1 {
        return Refinement::TooLong;
    }
    let mut base_index: Vec<i32> = filled(len, 0i32);
    get_base_index(current_position, first, fs, &mut base_index);
    let window_length_in_time: T = T::from_int(len as i128).over(fs);
    let mut main_window: Vec<T> = filled(len, o);
    get_main_window(current_position, &base_index, fs, window_length_in_time, &mut main_window);
    assert(main_window@ =~= main_window_for(fs, current_position, current_f0));
    let mut diff_window: Vec<T> = filled(len, o);
    get_diff_window(&main_window, &mut diff_window);
    assert(diff_window@ =~= diff_samples(main_window@, main_window@));
    proof {
        law_power_below(len as int);
    }
    let fft_size: usize = 4 * largest_power_below(len);
    let main: Vec<T> = cut_frame(x, fft_size, &base_index, &main_window);
    let diff: Vec<T> = cut_frame(x, fft_size, &base_index, &diff_window);
    Refinement::Frames { fft_size, main, diff }
}

/// The power at each bin.
pub open spec fn powers<T: Scalar>(main: Seq<Complex<T>>, bins: nat) -> Seq<T> {
    Seq::new(bins, |j: int| main[j].re * main[j].re + main[j].im * main[j].im)
}

/// The cross term at each bin, from which the deviation of the instantaneous
/// frequency follows.
pub open spec fn cross_terms<T: Scalar>(
    main: Seq<Complex<T>>,
    diff: Seq<Complex<T>>,
    bins: nat,
) -> Seq<T> {
    Seq::new(bins, |j: int| main[j].re * diff[j].im - main[j].im * diff[j].re)
}

/// The bin of harmonic `i + 1`, the last bin at most.
pub open spec fn harmonic_bin<T: Scalar>(f0: T, fft_size: int, fs: T, i: int, bins: int) -> int {
    let n = at_least_zero(
        rounded(((f0 * T::of_int(fft_size)) / fs) * (T::of_int(i) + T::of_int(1))),
    ) as int;
    if n < bins - 1 {
        n
    } else {
        bins - 1
    }
}

/// The instantaneous frequency at bin `j`, zero where there is no power.
pub open spec fn instantaneous<T: Scalar>(
    power: Seq<T>,
    cross: Seq<T>,
    fft_size: int,
    fs: T,
    j: int,
) -> T {
    if power[j].equals(zero::<T>()) {
        zero::<T>()
    } else {
        (T::of_int(j) * fs) / T::of_int(fft_size) + (((cross[j] / power[j]) * fs) / T::of_int(2))
            / circle::<T>()
    }
}

/// Sums over the first `n` harmonics, in order: amplitude times frequency,
/// amplitude times number, and relative deviation from the candidate.
pub open spec fn harmonic_sums<T: Scalar>(
    power: Seq<T>,
    cross: Seq<T>,
    fft_size: int,
    fs: T,
    f0: T,
    n: int,
) -> (T, T, T)
    decreases n,
{
    if n <= 0 {
        (zero::<T>(), zero::<T>(), zero::<T>())
    } else {
        let s = harmonic_sums(power, cross, fft_size, fs, f0, n - 1);
        let j = harmonic_bin(f0, fft_size, fs, n - 1, power.len() as int);
        let amplitude = power[j].square_root();
        let frequency = instantaneous(power, cross, fft_size, fs, j);
        let number = T::of_int(n - 1) + T::of_int(1);
        (
            s.0 + amplitude * frequency,
            s.1 + amplitude * number,
            s.2 + ((frequency / number - f0) / f0).magnitude(),
        )
    }
}

/// The frequency and the score that the first `n` harmonics give.
pub open spec fn concluded<T: Scalar>(
    power: Seq<T>,
    cross: Seq<T>,
    fft_size: int,
    fs: T,
    f0: T,
    n: int,
) -> (T, T) {
    let s = harmonic_sums(power, cross, fft_size, fs, f0, n);
    (
        s.0 / (s.1 + safe_guard::<T>()),
        T::of_int(1) / (s.2 / T::of_int(n) + safe_guard::<T>()),
    )
}

/// Draws the frequency and the score from the harmonics.
pub fn fix_f0<T: Scalar>(
    power_spectrum: &[T],
    numerator_i: &[T],
    fft_size: usize,
    fs: T,
    current_f0: T,
    number_of_harmonics: usize,
) -> (r: (T, T))
    requires
        0 < power_spectrum@.len() <= numerator_i@.len(),
    ensures
        r == concluded(
            power_spectrum@,
            numerator_i@,
            fft_size as int,
            fs,
            current_f0,
            number_of_harmonics as int,
        ),
{
    let o: T = nought();
    let one: T = T::from_int(1);
    let two: T = T::from_int(2);
    let size: T = T::from_int(fft_size as i128);
    let circle_ratio: T = pi();
    let last: usize = power_spectrum.len() - 1;
    let mut numer: T = o;
    let mut denom: T = o;
    let mut score: T = o;
    for i in 0..number_of_harmonics
        invariant
            o == zero::<T>(),
            one == T::of_int(1),
            two == T::of_int(2),
            size == T::of_int(fft_size as int),
            circle_ratio == circle::<T>(),
            last == power_spectrum@.len() - 1,
            0 < power_spectrum@.len() <= numerator_i@.len(),
            (numer, denom, score) == harmonic_sums(
                power_spectrum@,
                numerator_i@,
                fft_size as int,
                fs,
                current_f0,
                i as int,
            ),
    {
        let number: T = T::from_int(i as i128).plus(one);
        let raw: usize = clip_below_zero(
            matlab_round(current_f0.times(size).over(fs).times(number)),
        );
        let idx: usize = if raw < last { raw } else { last };
        let frequency: T = if power_spectrum[idx].same(o) {
            o
        } else {
            T::from_int(idx as i128).times(fs).over(size).plus(
                numerator_i[idx].over(power_spectrum[idx]).times(fs).over(two).over(circle_ratio),
            )
        };
        let amplitude: T = power_spectrum[idx].sqrt();
        numer = numer.plus(amplitude.times(frequency));
        denom = denom.plus(amplitude.times(number));
        score = score.plus(frequency.over(number).minus(current_f0).over(current_f0).abs());
    }
    let g: T = guard();
    let refined_f0: T = numer.over(denom.plus(g));
    let refined_score: T = one.over(
        score.over(T::from_int(number_of_harmonics as i128)).plus(g),
    );
    (refined_f0, refined_score)
}

/// How many harmonics of `f0` are looked at: those below half the rate, at least
/// one and at most six.
pub open spec fn harmonic_number<T: Scalar>(fs: T, f0: T) -> int {
    let n = ((fs / T::of_int(2)) / f0).as_i32();
    if n >= 6 {
        6
    } else if n > 1 {
        n as int
    } else {
        1
    }
}

/// The frequency and the score that the two spectra give.
pub open spec fn mean_f0<T: Scalar>(
    main: Seq<Complex<T>>,
    diff: Seq<Complex<T>>,
    fft_size: int,
    fs: T,
    f0: T,
) -> (T, T) {
    let bins = (fft_size / 2 + 1) as nat;
    concluded(
        powers(main, bins),
        cross_terms(main, diff, bins),
        fft_size,
        fs,
        f0,
        harmonic_number(fs, f0),
    )
}

/// Draws the frequency and the score from the two spectra.
pub fn get_mean_f0<T: Scalar>(
    main_spectrum: &[Complex<T>],
    diff_spectrum: &[Complex<T>],
    fft_size: usize,
    fs: T,
    current_f0: T,
) -> (r: (T, T))
    requires
        fft_size / 2 < main_spectrum@.len(),
        fft_size / 2 < diff_spectrum@.len(),
    ensures
        r == mean_f0(main_spectrum@, diff_spectrum@, fft_size as int, fs, current_f0),
{
    let bins: usize = fft_size / 2 + 1;
    let mut power_spectrum: Vec<T> = Vec::with_capacity(bins);
    let mut numerator_i: Vec<T> = Vec::with_capacity(bins);
    for j in 0..bins
        invariant
            bins == fft_size / 2 + 1,
            bins <= main_spectrum@.len(),
            bins <= diff_spectrum@.len(),
            power_spectrum@ == powers(main_spectrum@, j as nat),
            numerator_i@ == cross_terms(main_spectrum@, diff_spectrum@, j as nat),
    {
        let m: &Complex<T> = &main_spectrum[j];
        let d: &Complex<T> = &diff_spectrum[j];
        numerator_i.push(m.re.times(d.im).minus(m.im.times(d.re)));
        power_spectrum.push(m.re.times(m.re).plus(m.im.times(m.im)));
    }
    let most: i32 = my_min_i(fs.over(T::from_int(2)).over(current_f0).to_i32(), 6);
    let number_of_harmonics: usize = my_max_i(most, 1) as usize;
    fix_f0(&power_spectrum, &numerator_i, fft_size, fs, current_f0, number_of_harmonics)
}

/// Frequency and score, both zero where the frequency is out of bounds or the
/// score below two and a half.
pub open spec fn gated<T: Scalar>(r: (T, T), floor: T, ceil: T) -> (T, T) {
    if r.0 < floor || ceil < r.0 || r.1 < T::of_decimal(25, 1) {
        (zero::<T>(), zero::<T>())
    } else {
        r
    }
}

/// Decides on a candidate by the spectra of its two frames.
pub fn get_refined_f0<T: Scalar>(
    main_spectrum: &[Complex<T>],
    diff_spectrum: &[Complex<T>],
    fft_size: usize,
    fs: T,
    current_f0: T,
    f0_floor: T,
    f0_ceil: T,
) -> (r: (T, T))
    requires
        fft_size / 2 < main_spectrum@.len(),
        fft_size / 2 < diff_spectrum@.len(),
    ensures
        r == gated(
            mean_f0(main_spectrum@, diff_spectrum@, fft_size as int, fs, current_f0),
            f0_floor,
            f0_ceil,
        ),
{
    let (mut refined_f0, mut refined_score) = get_mean_f0(
        main_spectrum,
        diff_spectrum,
        fft_size,
        fs,
        current_f0,
    );
    if refined_f0.less(f0_floor) || f0_ceil.less(refined_f0) || refined_score.less(
        T::from_decimal(25, 1),
    ) {
        refined_f0 = nought();
        refined_score = nought();
    }
    (refined_f0, refined_score)
}

/// Law: a refined candidate is dropped, or it is neither below the floor nor
/// above the ceiling, and its score is not below two and a half.
pub proof fn law_refined_within_bounds<T: Scalar>(r: (T, T), floor: T, ceil: T)
    ensures
        gated(r, floor, ceil) == (zero::<T>(), zero::<T>()) || (gated(r, floor, ceil) == r && !(r.0
            < floor) && !(ceil < r.0) && !(r.1 < T::of_decimal(25, 1))),
{
}

/// Law: the frames of a candidate are as long as their transform, a power of two
/// more than twice the length of the window.
pub proof fn law_frames_fill_the_transform<T: Scalar>(x: Seq<T>, fs: T, position: T, f0: T)
    ensures
        main_frame(x, fs, position, f0).len() == transform_length(window_length(fs, f0)),
        diff_frame(x, fs, position, f0).len() == transform_length(window_length(fs, f0)),
        is_power_of_two(transform_length(window_length(fs, f0))),
        2 * window_length(fs, f0) < transform_length(window_length(fs, f0)) <= 4 * window_length(
            fs,
            f0,
        ),
{
    let n = window_length(fs, f0);
    law_power_below(n);
    let k = choose|k: nat| power_below(n) == #[trigger] pow2(k);
    lemma_pow2_adds(k, 2);
    lemma2_to64();
    assert(transform_length(n) == pow2(k + 2));
}

} // verus!
