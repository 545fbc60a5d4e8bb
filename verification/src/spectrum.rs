//! Band-pass filtering in the frequency domain. The transforms themselves happen
//! elsewhere: this module prepares what is transformed and takes up what comes
//! back.
use crate::basics::{
    at_least_zero, circle, clip_below_zero, filled, matlab_round, nought, pi, repeated, rounded,
    zero,
};
use crate::crossing::{
    ZeroCrossings, candidate_contour, crossing_lists, flipped, get_f0_candidate_contour,
    get_four_zero_crossing_intervals, law_edges, one_less, stepped,
};
use crate::scalar::Scalar;
use vstd::prelude::*;

verus! {

/// A complex number.
pub struct Complex<T> {
    pub re: T,
    pub im: T,
}

/// The product of two complex numbers.
pub open spec fn product<T: Scalar>(a: Complex<T>, b: Complex<T>) -> Complex<T> {
    Complex { re: a.re * b.re - a.im * b.im, im: a.re * b.im + a.im * b.re }
}

/// The bin-by-bin product of two spectra.
pub open spec fn products<T: Scalar>(a: Seq<Complex<T>>, b: Seq<Complex<T>>) -> Seq<Complex<T>> {
    Seq::new(a.len(), |i: int| product(a[i], b[i]))
}

/// Multiplies the spectrum of a signal by that of a filter.
pub fn filter_spectrum<T: Scalar>(
    y_spectrum: &[Complex<T>],
    h_spectrum: &[Complex<T>],
) -> (prod: Vec<Complex<T>>)
    requires
        y_spectrum@.len() <= h_spectrum@.len(),
    ensures
        prod@ == products(y_spectrum@, h_spectrum@),
{
    let mut prod: Vec<Complex<T>> = Vec::with_capacity(y_spectrum.len());
    for i in 0..y_spectrum.len()
        invariant
            y_spectrum@.len() <= h_spectrum@.len(),
            prod@ == products(y_spectrum@, h_spectrum@).take(i as int),
    {
        let a: &Complex<T> = &y_spectrum[i];
        let b: &Complex<T> = &h_spectrum[i];
        prod.push(
            Complex {
                re: a.re.times(b.re).minus(a.im.times(b.im)),
                im: a.re.times(b.im).plus(a.im.times(b.re)),
            },
        );
    }
    assert(products(y_spectrum@, h_spectrum@).take(y_spectrum@.len() as int) =~= products(
        y_spectrum@,
        h_spectrum@,
    ));
    prod
}

/// The first `n` samples of `x`, followed by zeros where there are fewer.
pub open spec fn fitted<T: Scalar>(x: Seq<T>, n: nat) -> Seq<T> {
    Seq::new(n, |i: int| if i < x.len() { x[i] } else { zero::<T>() })
}

/// What is handed to a transform of length `n`.
pub fn fft_real<T: Scalar>(x: &[T], n: usize) -> (time: Vec<T>)
    ensures
        time@ == fitted(x@, n as nat),
{
    let o: T = nought();
    let mut time: Vec<T> = Vec::with_capacity(n);
    for i in 0..n
        invariant
            o == zero::<T>(),
            time@ == fitted(x@, i as nat),
    {
        time.push(
            if i < x.len() {
                x[i]
            } else {
                o
            },
        );
    }
    time
}

/// What an inverse transform of length `n`, which does not scale its result,
/// leaves of `out` once it is scaled.
pub open spec fn unscaled<T: Scalar>(time: Seq<T>, n: int, out: Seq<T>) -> Seq<T> {
    Seq::new(
        out.len(),
        |i: int|
            if i < n {
                time[i] * (T::of_int(1) / T::of_int(n))
            } else {
                out[i]
            },
    )
}

/// Takes up the result of an inverse transform of length `n`.
pub fn ifft_to_real_in_place<T: Scalar>(time: &[T], n: usize, out: &mut Vec<T>)
    requires
        n <= time@.len(),
    ensures
        final(out)@ == unscaled(time@, n as int, old(out)@),
{
    let ghost before = out@;
    let scale: T = T::from_int(1).over(T::from_int(n as i128));
    let count: usize = if out.len() < n { out.len() } else { n };
    for i in 0..count
        invariant
            scale == T::of_int(1) / T::of_int(n as int),
            count <= n <= time@.len(),
            count <= before.len() == out@.len(),
            forall|k: int|
                0 <= k < before.len() ==> #[trigger] out@[k] == if k < i {
                    time@[k] * scale
                } else {
                    before[k]
                },
    {
        out[i] = time[i].times(scale);
    }
    assert(out@ =~= unscaled(time@, n as int, before));
}

/// Sample `n` of a Nuttall window of length `length`.
pub open spec fn nuttall<T: Scalar>(length: int, n: int) -> T {
    if length == 1 {
        T::of_int(1)
    } else {
        let x = ((T::of_int(2) * circle::<T>()) * T::of_int(n)) / T::of_int(length - 1);
        ((T::of_decimal(355768, 6) - T::of_decimal(487396, 6) * x.cosine())
            + T::of_decimal(144232, 6) * (T::of_int(2) * x).cosine())
            - T::of_decimal(12604, 6) * (T::of_int(3) * x).cosine()
    }
}

/// Writes a Nuttall window of length `y_len` into the first entries of `y`.
pub fn nuttall_window<T: Scalar>(y_len: usize, y: &mut Vec<T>)
    requires
        y_len <= old(y)@.len(),
    ensures
        final(y)@ == Seq::new(
            old(y)@.len(),
            |n: int|
                if n < y_len {
                    nuttall::<T>(y_len as int, n)
                } else {
                    old(y)@[n]
                },
        ),
{
    let ghost before = y@;
    if y_len == 0 {
        return;
    }
    if y_len == 1 {
        y[0] = T::from_int(1);
        return;
    }
    let a0: T = T::from_decimal(355768, 6);
    let a1: T = T::from_decimal(487396, 6);
    let a2: T = T::from_decimal(144232, 6);
    let a3: T = T::from_decimal(12604, 6);
    let two: T = T::from_int(2);
    let three: T = T::from_int(3);
    let turn: T = two.times(pi());
    let denom: T = T::from_int((y_len - 1) as i128);
    for n in 0..y_len
        invariant
            y_len >= 2,
            a0 == T::of_decimal(355768, 6),
            a1 == T::of_decimal(487396, 6),
            a2 == T::of_decimal(144232, 6),
            a3 == T::of_decimal(12604, 6),
            two == T::of_int(2),
            three == T::of_int(3),
            turn == T::of_int(2) * circle::<T>(),
            denom == T::of_int(y_len - 1),
            y_len <= before.len() == y@.len(),
            forall|k: int|
                0 <= k < before.len() ==> #[trigger] y@[k] == if k < n {
                    nuttall::<T>(y_len as int, k)
                } else {
                    before[k]
                },
    {
        let x: T = turn.times(T::from_int(n as i128)).over(denom);
        y[n] = a0.minus(a1.times(x.cos())).plus(a2.times(two.times(x).cos())).minus(
            a3.times(three.times(x).cos()),
        );
    }
}

/// Half the length of the filter for `boundary`: two of its periods.
pub open spec fn half_length<T: Scalar>(boundary: T, fs: T) -> nat {
    at_least_zero(rounded((fs / boundary) * T::of_int(2)))
}

/// The filter for `boundary`: a windowed cosine, then zeros up to `fft_size`.
pub open spec fn band_pass<T: Scalar>(boundary: T, fft_size: nat, fs: T) -> Seq<T> {
    let half = half_length(boundary, fs) as int;
    Seq::new(
        fft_size,
        |i: int|
            if i < 2 * half + 1 {
                nuttall::<T>(2 * half + 1, i) * ((((T::of_int(2) * circle::<T>()) * boundary)
                    * T::of_int(i - half)) / fs).cosine()
            } else {
                zero::<T>()
            },
    )
}

/// Half the length of the filter for `boundary_f0`.
pub fn filter_length_half<T: Scalar>(boundary_f0: T, fs: T) -> (half: usize)
    ensures
        half == half_length(boundary_f0, fs),
        half <= i32::MAX,
{
    clip_below_zero(matlab_round(fs.over(boundary_f0).times(T::from_int(2))))
}

/// Designs the filter for `boundary_f0`.
pub fn band_pass_filter<T: Scalar>(boundary_f0: T, fft_size: usize, fs: T) -> (filter: Vec<T>)
    requires
        2 * half_length(boundary_f0, fs) + 1 <= fft_size,
    ensures
        filter@ == band_pass(boundary_f0, fft_size as nat, fs),
{
    let half: usize = filter_length_half(boundary_f0, fs);
    let win_len: usize = half * 2 + 1;
    let mut filter: Vec<T> = filled(fft_size, nought());
    nuttall_window(win_len, &mut filter);
    let ghost window = filter@;
    let turn: T = T::from_int(2).times(pi()).times(boundary_f0);
    for i in 0..win_len
        invariant
            half <= i32::MAX,
            win_len == 2 * half + 1,
            win_len <= window.len() == filter@.len(),
            turn == (T::of_int(2) * circle::<T>()) * boundary_f0,
            forall|k: int|
                0 <= k < window.len() ==> #[trigger] filter@[k] == if k < i {
                    window[k] * ((turn * T::of_int(k - half)) / fs).cosine()
                } else {
                    window[k]
                },
    {
        let k: i128 = i as i128 - half as i128;
        filter[i] = filter[i].times(turn.times(T::from_int(k)).over(fs).cos());
    }
    assert(filter@ =~= band_pass(boundary_f0, fft_size as nat, fs));
    filter
}

/// The filtered signal: what the inverse transform of length `fft_size` gave,
/// scaled and shifted by half the filter, `y_length` samples and then zeros.
pub open spec fn filtered<T: Scalar>(
    time: Seq<T>,
    boundary: T,
    fft_size: nat,
    fs: T,
    y_length: int,
) -> Seq<T> {
    let scaled = unscaled(time, fft_size as int, repeated(fft_size, zero::<T>()));
    Seq::new(
        fft_size,
        |i: int|
            if i < y_length {
                scaled[i + half_length(boundary, fs) + 1]
            } else {
                zero::<T>()
            },
    )
}

/// Takes up what the inverse transform of the product of spectra gave.
pub fn get_filtered_signal<T: Scalar>(
    time: &[T],
    boundary_f0: T,
    fft_size: usize,
    fs: T,
    y_length: usize,
) -> (filtered_signal: Vec<T>)
    requires
        fft_size <= time@.len(),
        y_length + half_length(boundary_f0, fs) + 1 <= fft_size,
    ensures
        filtered_signal@ == filtered(time@, boundary_f0, fft_size as nat, fs, y_length as int),
{
    let o: T = nought();
    let index_bias: usize = filter_length_half(boundary_f0, fs) + 1;
    let mut scaled: Vec<T> = filled(fft_size, o);
    ifft_to_real_in_place(time, fft_size, &mut scaled);
    let mut filtered_signal: Vec<T> = filled(fft_size, o);
    for i in 0..y_length
        invariant
            index_bias == half_length(boundary_f0, fs) + 1,
            y_length + index_bias <= fft_size,
            scaled@.len() == fft_size,
            scaled@ == unscaled(time@, fft_size as int, repeated(fft_size as nat, zero::<T>())),
            filtered_signal@.len() == fft_size,
            forall|k: int|
                0 <= k < fft_size ==> #[trigger] filtered_signal@[k] == if k < i {
                    scaled@[k + index_bias]
                } else {
                    zero::<T>()
                },
    {
        filtered_signal[i] = scaled[i + index_bias];
    }
    assert(filtered_signal@ =~= filtered(
        time@,
        boundary_f0,
        fft_size as nat,
        fs,
        y_length as int,
    ));
    filtered_signal
}

/// The contour that one channel suggests, given what the inverse transform gave
/// for it.
pub open spec fn suggested<T: Scalar>(
    time: Seq<T>,
    boundary: T,
    fs: T,
    y_length: int,
    fft_size: nat,
    floor: T,
    ceil: T,
    times: Seq<T>,
    length: nat,
) -> Seq<T> {
    let s = filtered(time, boundary, fft_size, fs, y_length);
    candidate_contour(crossing_lists(s, y_length, fs), boundary, floor, ceil, times, length)
}

/// Fills `f0_candidate` with the contour of the channel around `boundary_f0`,
/// given what the inverse transform of its filtered spectrum gave.
pub fn get_f0_candidate_from_raw_event<T: Scalar>(
    time: &[T],
    boundary_f0: T,
    fs: T,
    y_length: usize,
    fft_size: usize,
    f0_floor: T,
    f0_ceil: T,
    temporal_positions: &[T],
    f0_candidate: &mut Vec<T>,
)
    requires
        fft_size <= time@.len(),
        y_length <= i32::MAX,
        y_length + half_length(boundary_f0, fs) + 1 <= fft_size,
    ensures
        final(f0_candidate)@ == suggested(
            time@,
            boundary_f0,
            fs,
            y_length as int,
            fft_size as nat,
            f0_floor,
            f0_ceil,
            temporal_positions@,
            old(f0_candidate)@.len(),
        ),
{
    let mut filtered_signal: Vec<T> = get_filtered_signal(time, boundary_f0, fft_size, fs, y_length);
    let ghost s = filtered_signal@;
    let z: ZeroCrossings<T> = get_four_zero_crossing_intervals(&mut filtered_signal, y_length, fs);
    proof {
        let n = y_length as int;
        let positive = flipped(s, n);
        let peak = stepped(positive, n);
        law_edges(s, n);
        law_edges(positive, n);
        law_edges(peak, one_less(n));
        law_edges(flipped(peak, one_less(n)), one_less(n));
    }
    get_f0_candidate_contour(
        &z,
        boundary_f0,
        f0_floor,
        f0_ceil,
        temporal_positions,
        f0_candidate,
    );
}

} // verus!
