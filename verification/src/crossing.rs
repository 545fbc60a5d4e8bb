//! Zero crossings of a band-passed signal and the frequency contour that they
//! suggest.
use crate::basics::{filled, guard, nought, repeated, safe_guard, zero};
use crate::interpolation::{interp1, looked_up};
use crate::scalar::Scalar;
use vstd::prelude::*;

verus! {

/// Whether the signal falls from above zero to zero or below between positions
/// `e - 1` and `e`.
pub open spec fn falls_at<T: Scalar>(s: Seq<T>, e: int) -> bool {
    zero::<T>() < s[e - 1] && s[e] <= zero::<T>()
}

/// The positions below `n` at which the signal falls through zero, in order.
pub open spec fn edges<T: Scalar>(s: Seq<T>, n: int) -> Seq<usize>
    decreases n,
{
    if n <= 1 {
        Seq::empty()
    } else if falls_at(s, n - 1) {
        edges(s, n - 1).push((n - 1) as usize)
    } else {
        edges(s, n - 1)
    }
}

/// Law: the edges are the positions at which the signal falls through zero,
/// each of them once and in increasing order.
pub proof fn law_edges<T: Scalar>(s: Seq<T>, n: int)
    requires
        0 <= n <= s.len() <= usize::MAX,
    ensures
        edges(s, n).len() <= n,
        forall|k: int|
            0 <= k < edges(s, n).len() ==> 0 < #[trigger] edges(s, n)[k] < n && falls_at(
                s,
                edges(s, n)[k] as int,
            ),
        forall|k: int, l: int|
            0 <= k < l < edges(s, n).len() ==> #[trigger] edges(s, n)[k] < #[trigger] edges(s, n)[l],
        forall|e: int|
            0 < e < n && #[trigger] falls_at(s, e) ==> edges(s, n).contains(e as usize),
    decreases n,
{
    if n > 1 {
        law_edges(s, n - 1);
        let a = edges(s, n - 1);
        let b = edges(s, n);
        assert forall|k: int| 0 <= k < b.len() implies 0 < #[trigger] b[k] < n && falls_at(
            s,
            b[k] as int,
        ) by {
            if k < a.len() {
                assert(b[k] == a[k]);
            }
        }
        assert forall|k: int, l: int| 0 <= k < l < b.len() implies #[trigger] b[k]
            < #[trigger] b[l] by {
            assert(b[k] == a[k]);
            if l < a.len() {
                assert(b[l] == a[l]);
            }
        }
        assert forall|e: int| 0 < e < n && #[trigger] falls_at(s, e) implies b.contains(
            e as usize,
        ) by {
            if e < n - 1 {
                assert(a.contains(e as usize));
                let k = choose|k: int| 0 <= k < a.len() && a[k] == e as usize;
                assert(b[k] == e as usize);
            } else {
                assert(b[a.len() as int] == e as usize);
            }
        }
    }
}

/// The position near edge `e` at which the straight line through the samples on
/// either side of it crosses zero.
pub open spec fn fine_edge<T: Scalar>(s: Seq<T>, e: int) -> T {
    T::of_int(e) - s[e - 1] / ((s[e] - s[e - 1]) + safe_guard::<T>())
}

/// The zero crossings, between samples.
pub open spec fn fine_edges<T: Scalar>(s: Seq<T>, n: int) -> Seq<T> {
    Seq::new(edges(s, n).len(), |k: int| fine_edge(s, edges(s, n)[k] as int))
}

/// The number of intervals between neighbouring edges.
pub open spec fn interval_number<T: Scalar>(s: Seq<T>, n: int) -> nat {
    if edges(s, n).len() < 2 {
        0
    } else {
        (edges(s, n).len() - 1) as nat
    }
}

/// The frequency that the distance between two neighbouring edges amounts to.
pub open spec fn interval_frequencies<T: Scalar>(s: Seq<T>, n: int, fs: T) -> Seq<T> {
    let fine = fine_edges(s, n);
    Seq::new(
        interval_number(s, n),
        |i: int| fs / ((fine[i + 1] - fine[i]) + safe_guard::<T>()),
    )
}

/// The time half-way between two neighbouring edges.
pub open spec fn interval_times<T: Scalar>(s: Seq<T>, n: int, fs: T) -> Seq<T> {
    let fine = fine_edges(s, n);
    Seq::new(interval_number(s, n), |i: int| ((fine[i] + fine[i + 1]) / T::of_int(2)) / fs)
}

/// Measures the intervals between falling zero crossings of the first `y_length`
/// samples. Both lists are left as they are where there is no interval.
pub fn zero_crossing_engine<T: Scalar>(
    filtered_signal: &[T],
    y_length: usize,
    fs: T,
    interval_locations: &mut Vec<T>,
    intervals: &mut Vec<T>,
) -> (number: usize)
    requires
        y_length <= filtered_signal@.len(),
    ensures
        number == interval_number(filtered_signal@, y_length as int),
        final(interval_locations)@ == if number == 0 {
            old(interval_locations)@
        } else {
            interval_times(filtered_signal@, y_length as int, fs)
        },
        final(intervals)@ == if number == 0 {
            old(intervals)@
        } else {
            interval_frequencies(filtered_signal@, y_length as int, fs)
        },
{
    let ghost s = filtered_signal@;
    let ghost n = y_length as int;
    proof {
        assert(filtered_signal.len() == s.len());
        law_edges(s, n);
    }
    let o: T = nought();
    let mut found: Vec<usize> = Vec::new();
    let mut i: usize = 1;
    while i < y_length
        invariant
            s == filtered_signal@,
            n == y_length <= s.len(),
            o == zero::<T>(),
            1 <= i,
            i <= y_length || i == 1,
            found@ == edges(s, if i < n { i as int } else { n }),
        decreases y_length - i,
    {
        if o.less(filtered_signal[i - 1]) && filtered_signal[i].at_most(o) {
            found.push(i);
        }
        i = i + 1;
    }
    let count: usize = found.len();
    if count < 2 {
        return 0;
    }
    let g: T = guard();
    let mut fine: Vec<T> = Vec::with_capacity(count);
    for k in 0..count
        invariant
            s == filtered_signal@,
            n == y_length <= s.len(),
            g == safe_guard::<T>(),
            count == found@.len(),
            found@ == edges(s, n),
            forall|m: int| 0 <= m < found@.len() ==> 0 < #[trigger] found@[m] < n,
            fine@ == fine_edges(s, n).take(k as int),
    {
        let e: usize = found[k];
        let num: T = filtered_signal[e - 1];
        let den: T = filtered_signal[e].minus(filtered_signal[e - 1]);
        fine.push(T::from_int(e as i128).minus(num.over(den.plus(g))));
    }
    assert(fine@ =~= fine_edges(s, n));
    let out_len: usize = count - 1;
    interval_locations.clear();
    intervals.clear();
    let two: T = T::from_int(2);
    for k in 0..out_len
        invariant
            g == safe_guard::<T>(),
            two == T::of_int(2),
            fine@ == fine_edges(s, n),
            out_len + 1 == fine@.len(),
            out_len == interval_number(s, n),
            intervals@ == interval_frequencies(s, n, fs).take(k as int),
            interval_locations@ == interval_times(s, n, fs).take(k as int),
    {
        let f: T = fs.over(fine[k + 1].minus(fine[k]).plus(g));
        let loc: T = fine[k].plus(fine[k + 1]).over(two).over(fs);
        intervals.push(f);
        interval_locations.push(loc);
    }
    assert(intervals@ =~= interval_frequencies(s, n, fs));
    assert(interval_locations@ =~= interval_times(s, n, fs));
    out_len
}

/// Intervals between falling zero crossings of a signal (`negative`), of its
/// negation (`positive`), of its differences (`peak`) and of their negation
/// (`dip`): times, frequencies and number of each.
pub struct ZeroCrossings<T> {
    pub negative_interval_locations: Vec<T>,
    pub negative_intervals: Vec<T>,
    pub number_of_negatives: usize,
    pub positive_interval_locations: Vec<T>,
    pub positive_intervals: Vec<T>,
    pub number_of_positives: usize,
    pub peak_interval_locations: Vec<T>,
    pub peak_intervals: Vec<T>,
    pub number_of_peaks: usize,
    pub dip_interval_locations: Vec<T>,
    pub dip_intervals: Vec<T>,
    pub number_of_dips: usize,
}

/// `n - 1`, or 0 for 0.
pub open spec fn one_less(n: int) -> int {
    if n > 0 {
        n - 1
    } else {
        0
    }
}

/// The first `n` samples negated.
pub open spec fn flipped<T: Scalar>(s: Seq<T>, n: int) -> Seq<T> {
    Seq::new(s.len(), |i: int| if i < n { -s[i] } else { s[i] })
}

/// Each of the first `n - 1` samples less the next one.
pub open spec fn stepped<T: Scalar>(s: Seq<T>, n: int) -> Seq<T> {
    Seq::new(s.len(), |i: int| if i < n - 1 { s[i] - s[i + 1] } else { s[i] })
}

/// One list of intervals: times, frequencies and their number.
pub struct IntervalList<T> {
    pub times: Seq<T>,
    pub frequencies: Seq<T>,
    pub number: nat,
}

/// The four lists of intervals.
pub struct CrossingLists<T> {
    pub negative: IntervalList<T>,
    pub positive: IntervalList<T>,
    pub peak: IntervalList<T>,
    pub dip: IntervalList<T>,
}

impl<T> View for ZeroCrossings<T> {
    type V = CrossingLists<T>;

    open spec fn view(&self) -> CrossingLists<T> {
        CrossingLists {
            negative: IntervalList {
                times: self.negative_interval_locations@,
                frequencies: self.negative_intervals@,
                number: self.number_of_negatives as nat,
            },
            positive: IntervalList {
                times: self.positive_interval_locations@,
                frequencies: self.positive_intervals@,
                number: self.number_of_positives as nat,
            },
            peak: IntervalList {
                times: self.peak_interval_locations@,
                frequencies: self.peak_intervals@,
                number: self.number_of_peaks as nat,
            },
            dip: IntervalList {
                times: self.dip_interval_locations@,
                frequencies: self.dip_intervals@,
                number: self.number_of_dips as nat,
            },
        }
    }
}

/// The intervals between falling zero crossings of the first `n` samples of `s`.
pub open spec fn interval_list<T: Scalar>(s: Seq<T>, n: int, fs: T) -> IntervalList<T> {
    IntervalList {
        times: interval_times(s, n, fs),
        frequencies: interval_frequencies(s, n, fs),
        number: interval_number(s, n),
    }
}

/// The four lists of intervals of the first `n` samples of `s`.
pub open spec fn crossing_lists<T: Scalar>(s: Seq<T>, n: int, fs: T) -> CrossingLists<T> {
    let positive = flipped(s, n);
    let peak = stepped(positive, n);
    let dip = flipped(peak, one_less(n));
    CrossingLists {
        negative: interval_list(s, n, fs),
        positive: interval_list(positive, n, fs),
        peak: interval_list(peak, one_less(n), fs),
        dip: interval_list(dip, one_less(n), fs),
    }
}

/// Negates the first `n` samples.
fn flip<T: Scalar>(s: &mut Vec<T>, n: usize)
    requires
        n <= old(s)@.len(),
    ensures
        final(s)@ == flipped(old(s)@, n as int),
{
    let ghost before = s@;
    for i in 0..n
        invariant
            n <= before.len() == s@.len(),
            forall|k: int|
                0 <= k < before.len() ==> #[trigger] s@[k] == if k < i {
                    -before[k]
                } else {
                    before[k]
                },
    {
        s[i] = s[i].negated();
    }
    assert(s@ =~= flipped(before, n as int));
}

/// The intervals of the first `y_length` samples: number, times, frequencies.
fn measured<T: Scalar>(filtered_signal: &[T], y_length: usize, fs: T) -> (r: (
    usize,
    Vec<T>,
    Vec<T>,
))
    requires
        y_length <= filtered_signal@.len(),
    ensures
        r.0 == interval_number(filtered_signal@, y_length as int),
        r.1@ == interval_times(filtered_signal@, y_length as int, fs),
        r.2@ == interval_frequencies(filtered_signal@, y_length as int, fs),
{
    let mut locations: Vec<T> = Vec::new();
    let mut intervals: Vec<T> = Vec::new();
    let number: usize = zero_crossing_engine(
        filtered_signal,
        y_length,
        fs,
        &mut locations,
        &mut intervals,
    );
    (number, locations, intervals)
}

/// Measures the four lists of intervals. The signal is used up: it ends as the
/// negated differences of its negation.
pub fn get_four_zero_crossing_intervals<T: Scalar>(
    filtered_signal: &mut Vec<T>,
    y_length: usize,
    fs: T,
) -> (z: ZeroCrossings<T>)
    requires
        y_length <= old(filtered_signal)@.len(),
    ensures
        z@ == crossing_lists(old(filtered_signal)@, y_length as int, fs),
        final(filtered_signal)@ == flipped(
            stepped(flipped(old(filtered_signal)@, y_length as int), y_length as int),
            one_less(y_length as int),
        ),
{
    let (number_of_negatives, negative_interval_locations, negative_intervals) = measured(
        filtered_signal,
        y_length,
        fs,
    );
    flip(filtered_signal, y_length);
    let (number_of_positives, positive_interval_locations, positive_intervals) = measured(
        filtered_signal,
        y_length,
        fs,
    );
    let steps: usize = if y_length > 0 { y_length - 1 } else { 0 };
    let ghost positive = filtered_signal@;
    for i in 0..steps
        invariant
            steps == one_less(y_length as int),
            y_length <= positive.len() == filtered_signal@.len(),
            forall|k: int|
                0 <= k < positive.len() ==> #[trigger] filtered_signal@[k] == if k < i {
                    positive[k] - positive[k + 1]
                } else {
                    positive[k]
                },
    {
        filtered_signal[i] = filtered_signal[i].minus(filtered_signal[i + 1]);
    }
    assert(filtered_signal@ =~= stepped(positive, y_length as int));
    let (number_of_peaks, peak_interval_locations, peak_intervals) = measured(
        filtered_signal,
        steps,
        fs,
    );
    flip(filtered_signal, steps);
    let (number_of_dips, dip_interval_locations, dip_intervals) = measured(
        filtered_signal,
        steps,
        fs,
    );
    ZeroCrossings {
        negative_interval_locations,
        negative_intervals,
        number_of_negatives,
        positive_interval_locations,
        positive_intervals,
        number_of_positives,
        peak_interval_locations,
        peak_intervals,
        number_of_peaks,
        dip_interval_locations,
        dip_intervals,
        number_of_dips,
    }
}

/// 1 where `x` is positive, else 0.
pub fn check_event(x: i32) -> (r: i32)
    ensures
        r == if x > 0 { 1int } else { 0 },
{
    if x > 0 {
        1
    } else {
        0
    }
}

/// `v` where it lies within a tenth of `boundary` and between `floor` and `ceil`,
/// else zero.
pub open spec fn accepted<T: Scalar>(v: T, floor: T, ceil: T, boundary: T) -> T {
    if v <= boundary * T::of_decimal(11, 1) && boundary * T::of_decimal(9, 1) <= v && v <= ceil
        && floor <= v {
        v
    } else {
        zero::<T>()
    }
}

/// The mean of four values.
pub open spec fn mean_of_four<T: Scalar>(a: T, b: T, c: T, d: T) -> T {
    (((a + b) + c) + d) / T::of_int(4)
}

/// Replaces each entry of `out` by the accepted mean of the four contours there.
pub fn get_f0_candidate_contour_sub<T: Scalar>(
    i0: &[T],
    i1: &[T],
    i2: &[T],
    i3: &[T],
    f0_floor: T,
    f0_ceil: T,
    boundary_f0: T,
    out: &mut Vec<T>,
)
    requires
        old(out)@.len() <= i0@.len(),
        old(out)@.len() <= i1@.len(),
        old(out)@.len() <= i2@.len(),
        old(out)@.len() <= i3@.len(),
    ensures
        final(out)@ == Seq::new(
            old(out)@.len(),
            |i: int|
                accepted(
                    mean_of_four(i0@[i], i1@[i], i2@[i], i3@[i]),
                    f0_floor,
                    f0_ceil,
                    boundary_f0,
                ),
        ),
{
    let o: T = nought();
    let four: T = T::from_int(4);
    let upper: T = boundary_f0.times(T::from_decimal(11, 1));
    let lower: T = boundary_f0.times(T::from_decimal(9, 1));
    let n: usize = out.len();
    for i in 0..n
        invariant
            o == zero::<T>(),
            four == T::of_int(4),
            upper == boundary_f0 * T::of_decimal(11, 1),
            lower == boundary_f0 * T::of_decimal(9, 1),
            n == out@.len(),
            n <= i0@.len(),
            n <= i1@.len(),
            n <= i2@.len(),
            n <= i3@.len(),
            forall|k: int|
                0 <= k < i ==> #[trigger] out@[k] == accepted(
                    mean_of_four(i0@[k], i1@[k], i2@[k], i3@[k]),
                    f0_floor,
                    f0_ceil,
                    boundary_f0,
                ),
    {
        let v: T = i0[i].plus(i1[i]).plus(i2[i]).plus(i3[i]).over(four);
        let ok: bool = v.at_most(upper) && lower.at_most(v) && v.at_most(f0_ceil)
            && f0_floor.at_most(v);
        out[i] = if ok {
            v
        } else {
            o
        };
    }
}

/// Whether each of the four lists holds more than two intervals.
pub open spec fn enough_intervals<T>(z: CrossingLists<T>) -> bool {
    z.negative.number > 2 && z.positive.number > 2 && z.peak.number > 2 && z.dip.number > 2
}

/// A list of intervals looked up at `times`.
pub open spec fn sampled<T: Scalar>(list: IntervalList<T>, times: Seq<T>, length: nat) -> Seq<T> {
    looked_up(list.times, list.frequencies, times, repeated(length, zero::<T>()))
}

/// The contour of one channel: at each time the accepted mean of the four lists,
/// zero throughout where one of them is too short.
pub open spec fn candidate_contour<T: Scalar>(
    z: CrossingLists<T>,
    boundary: T,
    floor: T,
    ceil: T,
    times: Seq<T>,
    length: nat,
) -> Seq<T> {
    let a = sampled(z.negative, times, length);
    let b = sampled(z.positive, times, length);
    let c = sampled(z.peak, times, length);
    let d = sampled(z.dip, times, length);
    Seq::new(
        length,
        |i: int|
            if enough_intervals(z) {
                accepted(mean_of_four(a[i], b[i], c[i], d[i]), floor, ceil, boundary)
            } else {
                zero::<T>()
            },
    )
}

/// Fills `f0_candidate` with the contour of one channel.
pub fn get_f0_candidate_contour<T: Scalar>(
    z: &ZeroCrossings<T>,
    boundary_f0: T,
    f0_floor: T,
    f0_ceil: T,
    temporal_positions: &[T],
    f0_candidate: &mut Vec<T>,
)
    requires
        z.number_of_negatives <= i32::MAX,
        z.number_of_positives <= i32::MAX,
        z.number_of_peaks <= i32::MAX,
        z.number_of_dips <= i32::MAX,
    ensures
        final(f0_candidate)@ == candidate_contour(
            z@,
            boundary_f0,
            f0_floor,
            f0_ceil,
            temporal_positions@,
            old(f0_candidate)@.len(),
        ),
{
    let n: usize = f0_candidate.len();
    let o: T = nought();
    let negatives: i32 = check_event(z.number_of_negatives as i32 - 2);
    let positives: i32 = check_event(z.number_of_positives as i32 - 2);
    let peaks: i32 = check_event(z.number_of_peaks as i32 - 2);
    let dips: i32 = check_event(z.number_of_dips as i32 - 2);
    if negatives == 0 || positives == 0 || peaks == 0 || dips == 0 {
        for k in 0..n
            invariant
                o == zero::<T>(),
                n == f0_candidate@.len(),
                forall|m: int| 0 <= m < k ==> #[trigger] f0_candidate@[m] == zero::<T>(),
        {
            f0_candidate[k] = o;
        }
        return;
    }
    let mut i0: Vec<T> = filled(n, o);
    let mut i1: Vec<T> = filled(n, o);
    let mut i2: Vec<T> = filled(n, o);
    let mut i3: Vec<T> = filled(n, o);
    interp1(
        &z.negative_interval_locations,
        &z.negative_intervals,
        temporal_positions,
        &mut i0,
    );
    interp1(
        &z.positive_interval_locations,
        &z.positive_intervals,
        temporal_positions,
        &mut i1,
    );
    interp1(&z.peak_interval_locations, &z.peak_intervals, temporal_positions, &mut i2);
    interp1(&z.dip_interval_locations, &z.dip_intervals, temporal_positions, &mut i3);
    get_f0_candidate_contour_sub(
        &i0,
        &i1,
        &i2,
        &i3,
        f0_floor,
        f0_ceil,
        boundary_f0,
        f0_candidate,
    );
}

/// Law: an accepted value is zero, or lies within the bounds that were asked for
/// and within a tenth of the channel's frequency.
pub proof fn law_candidate_contour_within_bounds<T: Scalar>(
    z: CrossingLists<T>,
    boundary: T,
    floor: T,
    ceil: T,
    times: Seq<T>,
    length: nat,
    i: int,
)
    requires
        0 <= i < length,
    ensures
        ({
            let v = candidate_contour(z, boundary, floor, ceil, times, length)[i];
            v == zero::<T>() || {
                &&& floor <= v
                &&& v <= ceil
                &&& boundary * T::of_decimal(9, 1) <= v
                &&& v <= boundary * T::of_decimal(11, 1)
            }
        }),
{
}

} // verus!
