//! The waveform that is analysed: the input at a reduced rate, without its mean.
use crate::basics::{filled, nought, repeated, zero};
use crate::decimate::{decimate_world, decimated, kept_position};
use crate::extension::total;
use crate::scalar::Scalar;
use vstd::prelude::*;

verus! {

/// The number of samples by which a signal is lengthened on either side before
/// its rate is reduced: the least multiple of `ratio` not below 140.
pub open spec fn lead(ratio: int) -> int {
    (140 + ratio - 1) / ratio * ratio
}

/// `x` with its first sample repeated before it and its last after it.
pub open spec fn lengthened<T>(x: Seq<T>, lag: int) -> Seq<T> {
    let n = x.len() as int;
    Seq::new(
        (n + 2 * lag) as nat,
        |i: int|
            if i < lag {
                x[0]
            } else if i < lag + n {
                x[i - lag]
            } else {
                x[n - 1]
            },
    )
}

/// Sample `i` of `x` at the rate reduced by `ratio`.
pub open spec fn reduced_sample<T: Scalar>(x: Seq<T>, ratio: int, i: int) -> T {
    let new_x = lengthened(x, lead(ratio));
    decimated(new_x, ratio, repeated(new_x.len(), zero::<T>()))[lead(ratio) / ratio + i]
}

/// What the reduction of `x` leaves of `y`.
pub open spec fn reduced<T: Scalar>(x: Seq<T>, y_length: int, ratio: int, y: Seq<T>) -> Seq<T> {
    Seq::new(
        y.len(),
        |i: int|
            if ratio == 1 {
                if i < x.len() {
                    x[i]
                } else {
                    y[i]
                }
            } else if i < y_length {
                reduced_sample(x, ratio, i)
            } else {
                y[i]
            },
    )
}

/// The lead is at least 140, less than `ratio` above that, and a whole number of
/// steps of `ratio`.
pub proof fn lemma_lead(ratio: int)
    requires
        0 < ratio,
    ensures
        140 <= lead(ratio) < 140 + ratio,
        lead(ratio) / ratio == (140 + ratio - 1) / ratio,
        0 <= lead(ratio) / ratio <= lead(ratio),
{
    let q = (140 + ratio - 1) / ratio;
    vstd::arithmetic::div_mod::lemma_fundamental_div_mod(140 + ratio - 1, ratio);
    vstd::arithmetic::div_mod::lemma_mod_bound(140 + ratio - 1, ratio);
    vstd::arithmetic::mul::lemma_mul_is_commutative(q, ratio);
    vstd::arithmetic::div_mod::lemma_div_multiples_vanish(q, ratio);
    vstd::arithmetic::div_mod::lemma_div_pos_is_pos(lead(ratio), ratio);
    vstd::arithmetic::div_mod::lemma_div_nonincreasing(lead(ratio), ratio);
}

/// Law: sample `i` at the reduced rate is the smoothed signal at position
/// `(n - 1) % ratio + ratio * i` of the `n` input samples, so that the last input
/// sample is among those kept.
pub proof fn law_reduced_positions(n: int, ratio: int, i: int)
    requires
        0 < n,
        0 < ratio,
        0 <= i,
    ensures
        kept_position(n + 2 * lead(ratio), ratio, lead(ratio) / ratio + i) - lead(ratio) == (n - 1)
            % ratio + ratio * i,
{
    lemma_lead(ratio);
    let steps = (140 + ratio - 1) / ratio;
    assert(lead(ratio) == ratio * steps) by (nonlinear_arith)
        requires
            lead(ratio) == steps * ratio,
    ;
    assert(n + 2 * lead(ratio) - 1 == ratio * (2 * steps) + (n - 1)) by (nonlinear_arith)
        requires
            lead(ratio) == ratio * steps,
    ;
    vstd::arithmetic::div_mod::lemma_mod_multiples_vanish(2 * steps, n - 1, ratio);
    assert(ratio * (steps + i) == ratio * steps + ratio * i) by (nonlinear_arith);
}

/// Writes into `y` the first `y_length` samples of `x` at the rate reduced by
/// `decimation_ratio`; for ratio 1, as much of `x` as `y` can take.
pub fn get_waveform_and_spectrum_sub<T: Scalar>(
    x: &[T],
    y_length: usize,
    decimation_ratio: usize,
    y: &mut Vec<T>,
)
    requires
        0 < decimation_ratio,
        decimation_ratio != 1 ==> {
            &&& 0 < x@.len()
            &&& y_length <= old(y)@.len()
            &&& lead(decimation_ratio as int) / decimation_ratio as int + y_length <= x@.len() + 2
                * lead(decimation_ratio as int)
            &&& x@.len() + 2 * lead(decimation_ratio as int) + 18 + decimation_ratio <= usize::MAX
        },
    ensures
        final(y)@ == reduced(x@, y_length as int, decimation_ratio as int, old(y)@),
{
    let ghost before = y@;
    let ghost ratio = decimation_ratio as int;
    let x_length: usize = x.len();
    if decimation_ratio == 1 {
        let n: usize = if x_length < y.len() { x_length } else { y.len() };
        for i in 0..n
            invariant
                n <= x@.len(),
                n <= before.len() == y@.len(),
                forall|k: int|
                    0 <= k < before.len() ==> #[trigger] y@[k] == if k < i {
                        x@[k]
                    } else {
                        before[k]
                    },
        {
            y[i] = x[i];
        }
        assert(y@ =~= reduced(x@, y_length as int, ratio, before));
        return;
    }
    proof {
        lemma_lead(ratio);
    }
    let start: usize = (140 + (decimation_ratio - 1)) / decimation_ratio;
    let lag: usize = start * decimation_ratio;
    let new_x_length: usize = x_length + lag * 2;
    let mut new_x: Vec<T> = Vec::with_capacity(new_x_length);
    for i in 0..lag
        invariant
            0 < x@.len(),
            new_x@ == lengthened(x@, lag as int).take(i as int),
    {
        new_x.push(x[0]);
    }
    for i in 0..x_length
        invariant
            x_length == x@.len(),
            new_x@ == lengthened(x@, lag as int).take(lag + i),
    {
        new_x.push(x[i]);
    }
    for i in 0..lag
        invariant
            0 < x_length == x@.len(),
            new_x@ == lengthened(x@, lag as int).take(lag + x_length + i),
    {
        new_x.push(x[x_length - 1]);
    }
    assert(new_x@ =~= lengthened(x@, lag as int));
    let mut new_y: Vec<T> = filled(new_x_length, nought());
    decimate_world(&new_x, decimation_ratio, &mut new_y);
    for i in 0..y_length
        invariant
            start + y_length <= new_x_length == new_y@.len(),
            y_length <= before.len() == y@.len(),
            start == lead(ratio) / ratio,
            new_y@ == decimated(
                lengthened(x@, lead(ratio)),
                ratio,
                repeated(lengthened(x@, lead(ratio)).len(), zero::<T>()),
            ),
            forall|k: int|
                0 <= k < before.len() ==> #[trigger] y@[k] == if k < i {
                    reduced_sample(x@, ratio, k)
                } else {
                    before[k]
                },
    {
        y[i] = new_y[start + i];
    }
    assert(y@ =~= reduced(x@, y_length as int, ratio, before));
}

/// The first `n` samples of `s` less their mean, followed by zeros.
pub open spec fn centred<T: Scalar>(s: Seq<T>, n: int) -> Seq<T> {
    let mean = total(zero::<T>(), s, 0, n) / T::of_int(n);
    Seq::new(s.len(), |i: int| if i < n { s[i] - mean } else { zero::<T>() })
}

/// The waveform that is transformed: `fft_size` samples, of which the first
/// `y_length` are the input at the reduced rate without its mean.
pub open spec fn waveform<T: Scalar>(x: Seq<T>, y_length: int, fft_size: int, ratio: int) -> Seq<T> {
    centred(reduced(x, y_length, ratio, repeated(fft_size as nat, zero::<T>())), y_length)
}

/// Prepares the waveform whose spectrum is to be taken.
pub fn get_waveform_and_spectrum<T: Scalar>(
    x: &[T],
    y_length: usize,
    fft_size: usize,
    decimation_ratio: usize,
) -> (y: Vec<T>)
    requires
        0 < decimation_ratio,
        y_length <= fft_size,
        decimation_ratio != 1 ==> {
            &&& 0 < x@.len()
            &&& lead(decimation_ratio as int) / decimation_ratio as int + y_length <= x@.len() + 2
                * lead(decimation_ratio as int)
            &&& x@.len() + 2 * lead(decimation_ratio as int) + 18 + decimation_ratio <= usize::MAX
        },
    ensures
        y@ == waveform(x@, y_length as int, fft_size as int, decimation_ratio as int),
{
    let o: T = nought();
    let mut y: Vec<T> = filled(fft_size, o);
    get_waveform_and_spectrum_sub(x, y_length, decimation_ratio, &mut y);
    let ghost s = y@;
    let mut sum: T = o;
    for i in 0..y_length
        invariant
            y_length <= s.len(),
            y@ == s,
            sum == total(zero::<T>(), s, 0, i as int),
    {
        sum = sum.plus(y[i]);
    }
    let mean: T = sum.over(T::from_int(y_length as i128));
    for i in 0..y_length
        invariant
            y_length <= s.len() == y@.len(),
            forall|k: int|
                0 <= k < s.len() ==> #[trigger] y@[k] == if k < i {
                    s[k] - mean
                } else {
                    s[k]
                },
    {
        y[i] = y[i].minus(mean);
    }
    for i in y_length..fft_size
        invariant
            o == zero::<T>(),
            y_length <= fft_size == s.len() == y@.len(),
            forall|k: int|
                0 <= k < s.len() ==> #[trigger] y@[k] == if k < y_length {
                    s[k] - mean
                } else if k < i {
                    zero::<T>()
                } else {
                    s[k]
                },
    {
        y[i] = o;
    }
    assert(y@ =~= centred(s, y_length as int));
    y
}

} // verus!
