//! What the steps from candidates to a contour mean, for numbers that are read exactly.
use crate::basics::{lesser, repeated, safe_guard, zero};
use crate::contour::{
    base_contour, best, bridge, continuation_error, eligible, first_of_greatest, in_short_gap,
    in_short_section, jumps, law_best_is_nearest, law_bridging_keeps_voiced_frames,
    law_top_scored_is_greatest, nearest, pruned, relative_error, short_section, unreliable,
    with_gaps_bridged, without_jumps, without_short_sections,
};
use crate::exact_laws::{
    lemma_associate, lemma_distribute, lemma_mul_le, lemma_mul_lt, lemma_small_tens,
};
use crate::extension::{
    Offer, Selection, extended, grown_both_ways, law_every_section_grows,
    law_extension_stays_in_bounds, long_enough, running_mean, sections_fit, selected, total,
};
use crate::filter_laws::lemma_reads;
use crate::harvest::final_contour;
use crate::merging::{
    Evidence, comes_from_holder, first_frame, fixed_contour, last_frame, law_fixed_contour_length,
    law_merging_loses_no_section, led_by_first, regrown,
};
use crate::scalar::{Scalar, exact};
use crate::sections::{
    boundaries, channels, in_section, law_boundaries_list_sections, lemma_run_within_section,
    lemma_sections_disjoint, voiced,
};
use crate::smoothing::smoothed;
use vstd::prelude::*;

verus! {

/// Whether `r` is a frequency within five per cent of `c`.
pub open spec fn near<T: Scalar>(c: T, r: T, value: spec_fn(T) -> real) -> bool {
    let apart = value(c) - value(r);
    let limit = value(c) + value(safe_guard::<T>());
    0real < value(r) && -limit <= 20real * apart <= limit
}

/// Whether one of the first `number` of `row` is near `c`.
pub open spec fn near_one<T: Scalar>(
    c: T,
    row: Seq<T>,
    number: nat,
    value: spec_fn(T) -> real,
) -> bool {
    exists|m: int| 0 <= m < number && #[trigger] near(c, row[m], value)
}

proof fn lemma_near<T: Scalar>(c: T, r: T, value: spec_fn(T) -> real)
    requires
        exact(value),
        0real < value(c) + value(safe_guard::<T>()),
        0real < value(r),
    ensures
        near(c, r, value) <==> relative_error(c, r) <= T::of_decimal(5, 2),
        value(T::of_decimal(5, 2)) < 1real,
{
    lemma_small_tens();
    lemma_reads(value, 5, 2, 100);
    let e = value(relative_error(c, r));
    let l = value(c) + value(safe_guard::<T>());
    let h = value(T::of_decimal(5, 2));
    assert(h == 1real / 20real);
    assert(e * l == value((c - r).magnitude()));
    if e <= h {
        lemma_mul_le(e, h, l);
    } else {
        lemma_mul_lt(h, e, l);
    }
    assert(h * l == l / 20real);
}

proof fn lemma_continues<T: Scalar>(c: T, row: Seq<T>, number: nat, value: spec_fn(T) -> real)
    requires
        exact(value),
        0real < value(c) + value(safe_guard::<T>()),
        number <= row.len(),
    ensures
        continuation_error(c, row, number) <= T::of_decimal(5, 2) <==> near_one(
            c,
            row,
            number,
            value,
        ),
{
    let t = row.take(number as int);
    let one = T::of_int(1);
    let i = law_best_is_nearest(c, t, one);
    let e = best(c, t, one).1;
    let h = T::of_decimal(5, 2);
    assert(value(zero::<T>()) == 0real);
    assert(value(one) == 1real);
    lemma_near(c, one, value);
    if near_one(c, row, number, value) {
        let m = choose|m: int| 0 <= m < number && #[trigger] near(c, row[m], value);
        lemma_near(c, row[m], value);
        assert(t[m] == row[m]);
        assert(eligible(c, t, one, m));
        assert(nearest(c, t, one, t.len() as int, i));
        assert(e <= relative_error(c, t[m]));
    }
    if e <= h {
        assert(nearest(c, t, one, t.len() as int, i));
        assert(eligible(c, t, one, i));
        lemma_near(c, t[i], value);
        assert(near(c, row[i], value));
    }
}

/// Law: a candidate stays, with what belongs to it, exactly where the next or the
/// previous frame has one within five per cent of it; those of the first and of the last
/// frame stay in any case.
pub proof fn law_candidates_that_go_on_stay<T: Scalar>(
    values: Seq<Seq<T>>,
    candidates: Seq<Seq<T>>,
    length: nat,
    number: nat,
    i: int,
    j: int,
    value: spec_fn(T) -> real,
)
    requires
        exact(value),
        0real <= value(safe_guard::<T>()),
        0 <= i < length <= candidates.len(),
        length <= values.len(),
        0 <= j < number,
        number <= values[i].len(),
        forall|k: int| 0 <= k < length ==> number <= (#[trigger] candidates[k]).len(),
        0real < value(candidates[i][j]),
    ensures
        ({
            let c = candidates[i][j];
            let v = pruned(values, candidates, length, number)[i][j];
            if i == 0 || i == length - 1 || near_one(c, candidates[i + 1], number, value)
                || near_one(c, candidates[i - 1], number, value) {
                v == values[i][j]
            } else {
                v == zero::<T>()
            }
        }),
{
    let c = candidates[i][j];
    assert(value(zero::<T>()) == 0real);
    if 0 < i < length - 1 {
        lemma_continues(c, candidates[i + 1], number, value);
        lemma_continues(c, candidates[i - 1], number, value);
        let a = continuation_error(c, candidates[i + 1], number);
        let b = continuation_error(c, candidates[i - 1], number);
        assert(lesser(a, b) <= T::of_decimal(5, 2) <==> a <= T::of_decimal(5, 2) || b
            <= T::of_decimal(5, 2));
        assert(unreliable(candidates, length, number, i, j) <==> !(lesser(a, b)
            <= T::of_decimal(5, 2)));
    }
}

/// Law: the first choice for a frame is the candidate with the greatest score, the first
/// of equals, and zero where no score is positive.
pub proof fn law_first_choice_has_the_greatest_score<T: Scalar>(
    candidates: Seq<Seq<T>>,
    scores: Seq<Seq<T>>,
    length: nat,
    number: nat,
    i: int,
    value: spec_fn(T) -> real,
) -> (j: int)
    requires
        exact(value),
        0 <= i < length,
        number <= scores[i].len(),
    ensures
        ({
            let f = base_contour(candidates, scores, length, number)[i];
            if exists|m: int| 0 <= m < number && 0real < value(#[trigger] scores[i][m]) {
                &&& 0 <= j < number
                &&& f == candidates[i][j]
                &&& 0real < value(scores[i][j])
                &&& forall|m: int|
                    0 <= m < number ==> value(#[trigger] scores[i][m]) <= value(scores[i][j])
                &&& forall|m: int|
                    0 <= m < j ==> value(#[trigger] scores[i][m]) < value(scores[i][j])
            } else {
                f == zero::<T>()
            }
        }),
{
    let s = scores[i];
    assert(value(zero::<T>()) == 0real);
    let j = law_top_scored_is_greatest(candidates[i], s, number as int);
    if exists|m: int| 0 <= m < number && 0real < value(#[trigger] s[m]) {
        let m = choose|m: int| 0 <= m < number && 0real < value(#[trigger] s[m]);
        assert(zero::<T>() < s[m]);
        assert(first_of_greatest(s, number as int, j));
        assert forall|m: int| 0 <= m < number implies value(#[trigger] s[m]) <= value(s[j]) by {
            assert(s[m] <= s[j]);
        }
        assert forall|m: int| 0 <= m < j implies value(#[trigger] s[m]) < value(s[j]) by {
            assert(s[m] < s[j]);
        }
    } else {
        assert forall|m: int| 0 <= m < number implies !(zero::<T>() < #[trigger] s[m]) by {
            assert(!(0real < value(s[m])));
        }
    }
    j
}

/// Whether `x` lies farther from `r` than `thousandths` thousandths of `r`.
pub open spec fn departs<T: Scalar>(
    x: T,
    r: real,
    thousandths: int,
    value: spec_fn(T) -> real,
) -> bool {
    let apart = 1000real * (value(x) - r);
    let limit = (thousandths as real) * (r + value(safe_guard::<T>()));
    if limit < 0real {
        apart < limit || -limit < apart
    } else {
        apart < -limit || limit < apart
    }
}

proof fn lemma_departs<T: Scalar>(
    x: T,
    r: T,
    thousandths: int,
    value: spec_fn(T) -> real,
)
    requires
        exact(value),
        0 <= thousandths,
        value(r) + value(safe_guard::<T>()) != 0real,
    ensures
        T::of_decimal(thousandths, 3) < ((x - r) / (r + safe_guard::<T>())).magnitude()
            <==> departs(x, value(r), thousandths, value),
{
    lemma_small_tens();
    lemma_reads(value, thousandths, 3, 1000);
    let d = value(r) + value(safe_guard::<T>());
    let q = value((x - r) / (r + safe_guard::<T>()));
    let a = value(T::of_decimal(thousandths, 3));
    let k = thousandths as real;
    assert(a * 1000real == k);
    assert(q * d == value(x) - value(r));
    let m = if d < 0real { -d } else { d };
    let s = if q < 0real { -q } else { q };
    assert(s * m == if q * d < 0real { -(q * d) } else { q * d }) by (nonlinear_arith)
        requires
            m == if d < 0real { -d } else { d },
            s == if q < 0real { -q } else { q },
    ;
    if a < s {
        lemma_mul_lt(a, s, m);
    } else {
        lemma_mul_le(s, a, m);
    }
    assert((k * d) == 1000real * (a * d)) by (nonlinear_arith)
        requires
            a * 1000real == k,
    ;
    assert(a * m == if d < 0real { -(a * d) } else { a * d }) by (nonlinear_arith)
        requires
            m == if d < 0real { -d } else { d },
    ;
    assert(d < 0real ==> a * d <= 0real) by (nonlinear_arith)
        requires
            a * 1000real == k,
            0real <= k,
    ;
    assert(0real < d ==> 0real <= a * d) by (nonlinear_arith)
        requires
            a * 1000real == k,
            0real <= k,
    ;
}

/// Law: a frame is dropped exactly where it departs from the frame before it and from
/// the line through the two frames before it; the first two frames are dropped in any
/// case.
pub proof fn law_frames_that_follow_stay<T: Scalar>(
    f0: Seq<T>,
    thousandths: int,
    i: int,
    value: spec_fn(T) -> real,
)
    requires
        exact(value),
        0 <= thousandths,
        0 <= i < f0.len(),
        value(f0[i]) != 0real,
        2 <= i ==> value(f0[i - 1]) + value(safe_guard::<T>()) != 0real,
        2 <= i ==> 2real * value(f0[i - 1]) - value(f0[i - 2]) + value(safe_guard::<T>()) != 0real,
    ensures
        ({
            let v = without_jumps(f0, T::of_decimal(thousandths, 3))[i];
            if i < 2 {
                v == zero::<T>()
            } else if departs(f0[i], value(f0[i - 1]), thousandths, value) && departs(
                f0[i],
                2real * value(f0[i - 1]) - value(f0[i - 2]),
                thousandths,
                value,
            ) {
                v == zero::<T>()
            } else {
                v == f0[i]
            }
        }),
{
    assert(value(zero::<T>()) == 0real);
    if 2 <= i {
        let r = f0[i - 1] * T::of_int(2) - f0[i - 2];
        assert(value(r) == 2real * value(f0[i - 1]) - value(f0[i - 2])) by {
            lemma_distribute(value(f0[i - 1]), 0real, 2real);
        }
        lemma_departs(f0[i], f0[i - 1], thousandths, value);
        lemma_departs(f0[i], r, thousandths, value);
        assert(jumps(f0, T::of_decimal(thousandths, 3), i) <==> departs(
            f0[i],
            value(f0[i - 1]),
            thousandths,
            value,
        ) && departs(f0[i], value(r), thousandths, value));
    }
}

/// Law: a run of voiced frames that spans at least `minimum` frames after its first
/// stays, and a shorter one with no voiced frame beside it goes.
pub proof fn law_long_runs_stay<T: Scalar>(f0: Seq<T>, minimum: nat, s: int, e: int, p: int)
    requires
        f0.len() <= usize::MAX,
        0 <= s <= p <= e < f0.len(),
        forall|q: int| s <= q <= e ==> #[trigger] voiced(f0, q),
    ensures
        e - s >= minimum ==> without_short_sections(f0, minimum)[p] == f0[p],
        e - s < minimum && !voiced(f0, s - 1) && !voiced(f0, e + 1) ==> without_short_sections(
            f0,
            minimum,
        )[p] == zero::<T>(),
{
    let b = boundaries(f0);
    law_boundaries_list_sections(f0);
    assert(voiced(f0, p));
    let k = choose|k: int| in_section(b, k, p);
    assert(in_section(b, k, p));
    lemma_run_within_section(f0, b, k, p, s, e);
    if e - s >= minimum {
        if in_short_section(f0, minimum, p) {
            let m = choose|m: int| #[trigger] in_section(b, m, p) && short_section(b, m, minimum);
            lemma_sections_disjoint(b, k, m, p);
        }
    } else if !voiced(f0, s - 1) && !voiced(f0, e + 1) {
        assert(voiced(f0, s) && voiced(f0, e));
        if b[2 * k] < s {
            assert(in_section(b, k, s - 1));
        }
        if e < b[2 * k + 1] {
            assert(in_section(b, k, e + 1));
        }
        assert(in_section(b, k, p) && short_section(b, k, minimum));
    }
}

/// A gap that holds `p` between voiced frames `a` and `z` is the one between two
/// neighbouring sections.
proof fn lemma_gap<T: Scalar>(f0: Seq<T>, a: int, z: int, p: int) -> (k: int)
    requires
        f0.len() <= usize::MAX,
        0 <= a < p < z < f0.len(),
        voiced(f0, a),
        voiced(f0, z),
        forall|q: int| a < q < z ==> !#[trigger] voiced(f0, q),
    ensures
        0 <= k < boundaries(f0).len() / 2 - 1,
        boundaries(f0)[2 * k + 1] == a,
        boundaries(f0)[2 * k + 2] == z,
        forall|l: int|
            0 <= l < boundaries(f0).len() / 2 - 1 && boundaries(f0)[2 * l + 1] < p
                < #[trigger] boundaries(f0)[2 * l + 2] ==> boundaries(f0)[2 * l + 1] == a
                && boundaries(f0)[2 * l + 2] == z,
{
    let b = boundaries(f0);
    law_boundaries_list_sections(f0);
    let k = choose|k: int| in_section(b, k, a);
    let m = choose|m: int| in_section(b, m, z);
    assert(in_section(b, k, a) && in_section(b, m, z));
    if a < b[2 * k + 1] {
        assert(in_section(b, k, a + 1));
        assert(voiced(f0, a + 1));
    }
    if b[2 * m] < z {
        assert(in_section(b, m, z - 1));
        assert(voiced(f0, z - 1));
    }
    if m <= k {
        assert(b[2 * m] <= b[2 * k + 1]);
    }
    assert(k < m);
    assert(b[2 * (k + 1)] <= b[2 * m]);
    assert(b[2 * k + 1] + 1 < b[2 * (k + 1)]);
    assert(in_section(b, k + 1, b[2 * (k + 1)] as int));
    assert(voiced(f0, b[2 * (k + 1)] as int));
    assert forall|l: int|
        0 <= l < b.len() / 2 - 1 && b[2 * l + 1] < p < #[trigger] b[2 * l + 2] implies b[2 * l + 1]
        == a && b[2 * l + 2] == z by {
        if l < k {
            assert(b[2 * l + 2] <= b[2 * k + 1]);
        }
        if k < l {
            assert(b[2 * (k + 1)] <= b[2 * l + 1]);
        }
    }
    k
}

/// Law: a gap of fewer than `threshold` frames between two voiced frames is bridged by a
/// straight line, from one above the frame before it to one below the frame after it. A
/// longer gap stays as it is, and so do the frames before the first voiced frame and
/// behind the last.
pub proof fn law_short_gaps_are_bridged<T: Scalar>(
    f0: Seq<T>,
    threshold: nat,
    a: int,
    z: int,
    p: int,
    value: spec_fn(T) -> real,
)
    requires
        exact(value),
        f0.len() <= usize::MAX,
        0 <= a < p < z < f0.len(),
        forall|q: int| a < q < z ==> !#[trigger] voiced(f0, q),
    ensures
        ({
            let v = with_gaps_bridged(f0, threshold)[p];
            let from = value(f0[a]) + 1real;
            let to = value(f0[z]) - 1real;
            &&& voiced(f0, a) && voiced(f0, z) && z - a - 1 < threshold ==> (value(v) - from) * ((z
                - a) as real) == (to - from) * ((p - a) as real)
            &&& voiced(f0, a) && voiced(f0, z) && threshold <= z - a - 1 ==> v == f0[p]
            &&& !voiced(f0, a) && a == 0 ==> v == f0[p]
            &&& !voiced(f0, z) && z == f0.len() - 1 ==> v == f0[p]
        }),
{
    let b = boundaries(f0);
    law_boundaries_list_sections(f0);
    if voiced(f0, a) && voiced(f0, z) {
        let k = lemma_gap(f0, a, z, p);
        if z - a - 1 < threshold {
            assert(in_short_gap(b, k, threshold, p));
            let l = choose|l: int| in_short_gap(b, l, threshold, p);
            assert(in_short_gap(b, l, threshold, p));
            assert(b[2 * l + 1] == a && b[2 * l + 2] == z);
            lemma_bridge(f0, b, l, p, value);
        } else if exists|l: int| in_short_gap(b, l, threshold, p) {
            let l = choose|l: int| in_short_gap(b, l, threshold, p);
            assert(in_short_gap(b, l, threshold, p));
            assert(b[2 * l + 1] == a && b[2 * l + 2] == z);
        }
    } else if exists|l: int| in_short_gap(b, l, threshold, p) {
        let l = choose|l: int| in_short_gap(b, l, threshold, p);
        assert(in_short_gap(b, l, threshold, p));
        let x = b[2 * l + 1] as int;
        let y = b[2 * (l + 1)] as int;
        assert(b[2 * l] <= x && y <= b[2 * (l + 1) + 1]);
        assert(in_section(b, l, x) && in_section(b, l + 1, y));
        assert(voiced(f0, x) && voiced(f0, y));
    }
}

proof fn lemma_bridge<T: Scalar>(
    f0: Seq<T>,
    b: Seq<usize>,
    k: int,
    p: int,
    value: spec_fn(T) -> real,
)
    requires
        exact(value),
        b[2 * k + 1] < b[2 * k + 2],
    ensures
        ({
            let (a, z) = (b[2 * k + 1] as int, b[2 * k + 2] as int);
            let from = value(f0[a]) + 1real;
            let to = value(f0[z]) - 1real;
            (value(bridge(f0, b, k, p)) - from) * ((z - a) as real) == (to - from) * ((p
                - a) as real)
        }),
{
    let (a, z) = (b[2 * k + 1] as int, b[2 * k + 2] as int);
    let low = f0[a] + T::of_int(1);
    let high = f0[z] - T::of_int(1);
    let width = T::of_int(z - a - 1) + T::of_int(1);
    let slope = (high - low) / width;
    let s = value(slope);
    let w = (z - a) as real;
    let d = (p - a) as real;
    assert(value(width) == ((z - a - 1) as real) + 1real);
    assert(value(width) == w);
    assert(s * w == value(high) - value(low));
    assert(value(slope * T::of_int(p - a)) == s * d);
    lemma_associate(s, d, w);
    lemma_associate(s, w, d);
    lemma_distribute(d, 0real, w);
}

/// The values of `row` from `lo` up to but not including `hi`, added up.
pub open spec fn summed<T>(row: Seq<T>, lo: int, hi: int, value: spec_fn(T) -> real) -> real
    decreases hi - lo,
{
    if hi <= lo {
        0real
    } else {
        summed(row, lo, hi - 1, value) + value(row[hi - 1])
    }
}

proof fn lemma_total<T: Scalar>(
    start: T,
    row: Seq<T>,
    lo: int,
    hi: int,
    value: spec_fn(T) -> real,
)
    requires
        exact(value),
    ensures
        value(total(start, row, lo, hi)) == value(start) + summed(row, lo, hi, value),
    decreases hi - lo,
{
    if lo < hi {
        lemma_total(start, row, lo, hi - 1, value);
    }
}

/// Law: a grown section is kept exactly where its frequencies, added to the mean carried
/// over from the section before, come to more than 2200. A section that is kept goes
/// behind those kept before it, and the mean of the section is carried over.
pub proof fn law_sections_are_kept_by_their_sum<T: Scalar>(
    rows: Seq<Seq<T>>,
    bounds: Seq<usize>,
    i: int,
    value: spec_fn(T) -> real,
)
    requires
        exact(value),
        0 <= i,
        ({
            let s = selected(rows, bounds, i);
            &&& i < s.rows.len()
            &&& s.bounds.len() == 2 * s.rows.len()
            &&& s.count <= i
            &&& s.bounds[2 * i] < s.bounds[2 * i + 1] <= s.rows[i].len()
        }),
    ensures
        ({
            let s = selected(rows, bounds, i);
            let t = selected(rows, bounds, i + 1);
            let (st, ed) = (s.bounds[2 * i] as int, s.bounds[2 * i + 1] as int);
            let sum = value(s.mean) + summed(s.rows[i], st, ed, value);
            &&& value(t.mean) * ((ed - st) as real) == sum
            &&& if 2200real < sum {
                &&& t.count == s.count + 1
                &&& t.rows[s.count as int] == s.rows[i]
                &&& t.bounds[2 * (s.count as int)] == st
                &&& t.bounds[2 * (s.count as int) + 1] == ed
            } else {
                t.count == s.count && t.rows == s.rows && t.bounds == s.bounds
            }
        }),
{
    let s = selected(rows, bounds, i);
    let t = selected(rows, bounds, i + 1);
    let (st, ed) = (s.bounds[2 * i] as int, s.bounds[2 * i + 1] as int);
    let row = s.rows[i];
    lemma_total(s.mean, row, st, ed, value);
    let sum = total(s.mean, row, st, ed);
    let mean = running_mean(s.mean, row, st, ed);
    let w = (ed - st) as real;
    assert(value(T::of_int(ed - st)) == w);
    assert(mean == sum / T::of_int(ed - st));
    let m = value(mean);
    assert(m * w == value(sum));
    assert(value(zero::<T>()) == 0real);
    assert(value(T::of_int(ed) - T::of_int(st)) == w);
    if 0real < m {
        let q = value(T::of_int(2200) / mean);
        assert(q * m == 2200real);
        lemma_distribute(w, 0real, m);
        if q < w {
            lemma_mul_lt(q, w, m);
        } else {
            lemma_mul_le(w, q, m);
        }
        assert(long_enough(mean, st, ed) <==> 2200real < value(sum));
    } else {
        lemma_mul_le(m, 0real, w);
        assert(0real * w == 0real);
        assert(!long_enough(mean, st, ed));
    }
}

/// Law: where a section is long enough, the contour is put together from the sections
/// that are, each grown in both directions from a voiced section of the contour: every
/// frame of each of them comes from one that holds it. This leaves out sections that
/// have grown past the start of the first of them. Where no section is long enough the
/// contour stays as it is.
pub proof fn law_long_sections_are_regrown<T: Scalar>(
    f0: Seq<T>,
    offer: Offer<T>,
    evidence: Evidence<T>,
    p: int,
) -> (w: (Selection<T>, Seq<int>))
    requires
        f0.len() <= usize::MAX,
        0 <= p < f0.len(),
    ensures
        ({
            let (s, perm) = w;
            let b = boundaries(f0);
            let m = regrown(f0, offer, evidence);
            &&& s == extended(channels(f0, b), b, offer)
            &&& s.count == 0 ==> m == f0
            &&& 0 < s.count && led_by_first(s.bounds, s.count) ==> {
                &&& (exists|k: int| 0 <= k < s.count && #[trigger] in_section(s.bounds, k, p))
                    ==> comes_from_holder(m, s.rows, s.bounds, s.count, p)
                &&& (forall|k: int| 0 <= k < s.count ==> !#[trigger] in_section(s.bounds, k, p))
                    ==> m[p] == s.rows[0][p]
            }
            &&& perm.len() == s.rows.len() == b.len() / 2
            &&& perm.no_duplicates()
            &&& forall|i: int|
                0 <= i < perm.len() ==> {
                    let k = #[trigger] perm[i];
                    &&& 0 <= k < b.len() / 2
                    &&& grown_both_ways(
                        channels(f0, b)[k],
                        b[2 * k] as int,
                        b[2 * k + 1] as int,
                        offer,
                        s.rows[i],
                        s.bounds[2 * i] as int,
                        s.bounds[2 * i + 1] as int,
                    )
                }
        }),
{
    let b = boundaries(f0);
    let rows = channels(f0, b);
    law_boundaries_list_sections(f0);
    assert(sections_fit(rows, b, f0.len()));
    law_extension_stays_in_bounds(rows, b, offer, f0.len());
    let perm = law_every_section_grows(rows, b, offer, f0.len());
    let s = extended(rows, b, offer);
    if 0 < s.count && led_by_first(s.bounds, s.count) {
        if exists|k: int| 0 <= k < s.count && #[trigger] in_section(s.bounds, k, p) {
            let k = choose|k: int| 0 <= k < s.count && #[trigger] in_section(s.bounds, k, p);
            law_merging_loses_no_section(s.rows, s.bounds, s.count, evidence, f0.len(), k, p);
        } else {
            law_merging_loses_no_section(s.rows, s.bounds, s.count, evidence, f0.len(), 0, p);
            assert forall|j: int| 0 <= j < s.count implies !(first_frame(s.bounds, j) <= p
                <= #[trigger] last_frame(s.bounds, j)) by {
                assert(!in_section(s.bounds, j, p));
            }
        }
    }
    (s, perm)
}

/// Each frame of `base` has the candidate with the greatest score, or zero where no
/// score is positive.
pub open spec fn first_choices<T: Scalar>(
    base: Seq<T>,
    candidates: Seq<Seq<T>>,
    scores: Seq<Seq<T>>,
    number: nat,
    value: spec_fn(T) -> real,
) -> bool {
    forall|i: int, m: int|
        #![trigger base[i], scores[i][m]]
        0 <= i < base.len() && 0 <= m < number && 0real < value(scores[i][m]) ==> exists|j: int|
            0 <= j < number && base[i] == candidates[i][j] && value(scores[i][m]) <= value(
                #[trigger] scores[i][j],
            )
}

/// Whether the two frames before frame `i` have a frequency to compare with.
pub open spec fn comparable<T: Scalar>(f0: Seq<T>, i: int, value: spec_fn(T) -> real) -> bool {
    &&& 0real < value(f0[i])
    &&& 0real != value(f0[i - 1]) + value(safe_guard::<T>())
    &&& 0real != 2real * value(f0[i - 1]) - value(f0[i - 2]) + value(safe_guard::<T>())
}

/// `steady` has the frames of `base` that follow the frames before them.
pub open spec fn follows<T: Scalar>(
    base: Seq<T>,
    steady: Seq<T>,
    thousandths: int,
    value: spec_fn(T) -> real,
) -> bool {
    &&& steady.len() == base.len()
    &&& forall|i: int|
        2 <= i < base.len() && comparable(base, i, value) ==> #[trigger] steady[i] == if departs(
            base[i],
            value(base[i - 1]),
            thousandths,
            value,
        ) && departs(
            base[i],
            2real * value(base[i - 1]) - value(base[i - 2]),
            thousandths,
            value,
        ) {
            zero::<T>()
        } else {
            base[i]
        }
}

/// Whether every frame from `s` to `e` is voiced.
pub open spec fn run_of<T: Scalar>(f0: Seq<T>, s: int, e: int) -> bool {
    0 <= s <= e < f0.len() && forall|q: int| s <= q <= e ==> #[trigger] voiced(f0, q)
}

/// `kept` has the runs of `steady` that span at least `minimum` frames after the first.
pub open spec fn sustains<T: Scalar>(steady: Seq<T>, kept: Seq<T>, minimum: nat) -> bool {
    &&& kept.len() == steady.len()
    &&& forall|s: int, e: int, p: int|
        #![trigger run_of(steady, s, e), kept[p]]
        run_of(steady, s, e) && s <= p <= e ==> {
            &&& e - s >= minimum ==> kept[p] == steady[p]
            &&& e - s < minimum && !voiced(steady, s - 1) && !voiced(steady, e + 1) ==> kept[p]
                == zero::<T>()
        }
}

/// Whether `a` and `z` are voiced and no frame between them is.
pub open spec fn gap_of<T: Scalar>(f0: Seq<T>, a: int, z: int) -> bool {
    &&& 0 <= a < z < f0.len()
    &&& voiced(f0, a)
    &&& voiced(f0, z)
    &&& forall|q: int| a < q < z ==> !#[trigger] voiced(f0, q)
}

/// `out` is `whole` with its gaps of fewer than `threshold` frames bridged.
pub open spec fn bridges<T: Scalar>(
    whole: Seq<T>,
    out: Seq<T>,
    threshold: nat,
    value: spec_fn(T) -> real,
) -> bool {
    &&& out.len() == whole.len()
    &&& forall|a: int, z: int, p: int|
        #![trigger gap_of(whole, a, z), out[p]]
        gap_of(whole, a, z) && a < p < z ==> {
            let from = value(whole[a]) + 1real;
            let to = value(whole[z]) - 1real;
            &&& z - a - 1 < threshold ==> (value(out[p]) - from) * ((z - a) as real) == (to - from)
                * ((p - a) as real)
            &&& threshold <= z - a - 1 ==> out[p] == whole[p]
        }
    &&& forall|p: int| 0 <= p < whole.len() && voiced(whole, p) ==> #[trigger] out[p] == whole[p]
}

proof fn lemma_allowed_range<T: Scalar>(value: spec_fn(T) -> real)
    requires
        exact(value),
    ensures
        100real * value(T::of_decimal(18, 2)) == 18real,
{
    lemma_small_tens();
    lemma_reads(value, 18, 2, 100);
    let h = value(T::of_decimal(18, 2));
    assert(h * (100int as real) == 18int as real);
    assert(100int as real == 100real);
    assert(h * 100real == 18real);
}

/// Law: a contour is found in steps. The first choices have the greatest scores; frames
/// that depart from both predictions by more than eight thousandths go, and then runs
/// that span fewer than six frames after their first. What is left is grown along
/// candidates within eighteen per cent, and last, gaps of fewer than nine frames are
/// bridged.
pub proof fn law_contour_is_found_in_steps<T: Scalar>(
    candidates: Seq<Seq<T>>,
    scores: Seq<Seq<T>>,
    length: nat,
    number: nat,
    value: spec_fn(T) -> real,
) -> (w: (Seq<T>, Seq<T>, Seq<T>, Seq<T>, T))
    requires
        exact(value),
        length <= usize::MAX,
        length <= scores.len(),
        forall|i: int| 0 <= i < length ==> number <= (#[trigger] scores[i]).len(),
    ensures
        ({
            let (base, steady, kept, whole, allowed) = w;
            &&& base.len() == length
            &&& first_choices(base, candidates, scores, number, value)
            &&& follows(base, steady, 8, value)
            &&& sustains(steady, kept, 6)
            &&& 100real * value(allowed) == 18real
            &&& whole == regrown(
                kept,
                (Offer { candidates, number, allowed }),
                (Evidence { candidates, scores, number }),
            )
            &&& bridges(whole, fixed_contour(candidates, scores, length, number), 9, value)
        }),
{
    let base = base_contour(candidates, scores, length, number);
    let steady = without_jumps(base, T::of_decimal(8, 3));
    let kept = without_short_sections(steady, 6);
    let allowed = T::of_decimal(18, 2);
    let whole = regrown(
        kept,
        Offer { candidates, number, allowed },
        Evidence { candidates, scores, number },
    );
    let out = fixed_contour(candidates, scores, length, number);
    law_fixed_contour_length(candidates, scores, length, number);
    lemma_allowed_range(value);
    assert(out == with_gaps_bridged(whole, 9));
    assert(value(zero::<T>()) == 0real);
    assert forall|i: int, m: int|
        #![trigger base[i], scores[i][m]]
        0 <= i < base.len() && 0 <= m < number && 0real < value(scores[i][m]) implies exists|j: int|
            0 <= j < number && base[i] == candidates[i][j] && value(scores[i][m]) <= value(
                #[trigger] scores[i][j],
            ) by {
        let j = law_first_choice_has_the_greatest_score(
            candidates,
            scores,
            length,
            number,
            i,
            value,
        );
        assert(0 <= j < number && value(scores[i][m]) <= value(scores[i][j]));
    }
    assert(follows(base, steady, 8, value)) by {
        assert forall|i: int|
            2 <= i < base.len() && comparable(base, i, value) implies #[trigger] steady[i]
            == if departs(base[i], value(base[i - 1]), 8, value) && departs(
            base[i],
            2real * value(base[i - 1]) - value(base[i - 2]),
            8,
            value,
        ) {
            zero::<T>()
        } else {
            base[i]
        } by {
            law_frames_that_follow_stay(base, 8, i, value);
        }
    }
    assert forall|s: int, e: int, p: int|
        #![trigger run_of(steady, s, e), kept[p]]
        run_of(steady, s, e) && s <= p <= e implies {
            &&& e - s >= 6 ==> kept[p] == steady[p]
            &&& e - s < 6 && !voiced(steady, s - 1) && !voiced(steady, e + 1) ==> kept[p]
                == zero::<T>()
        } by {
        law_long_runs_stay(steady, 6, s, e, p);
    }
    assert forall|a: int, z: int, p: int|
        #![trigger gap_of(whole, a, z), out[p]]
        gap_of(whole, a, z) && a < p < z implies {
            let from = value(whole[a]) + 1real;
            let to = value(whole[z]) - 1real;
            &&& z - a - 1 < 9 ==> (value(out[p]) - from) * ((z - a) as real) == (to - from) * ((p
                - a) as real)
            &&& 9 <= z - a - 1 ==> out[p] == whole[p]
        } by {
        law_short_gaps_are_bridged(whole, 9, a, z, p, value);
    }
    assert forall|p: int| 0 <= p < whole.len() && voiced(whole, p) implies #[trigger] out[p]
        == whole[p] by {
        law_bridging_keeps_voiced_frames(whole, 9, p);
    }
    (base, steady, kept, whole, allowed)
}

/// `kept` has of `values` what belongs to a candidate that a neighbouring frame goes on
/// with.
pub open spec fn goes_on_with<T: Scalar>(
    values: Seq<Seq<T>>,
    kept: Seq<Seq<T>>,
    candidates: Seq<Seq<T>>,
    length: nat,
    number: nat,
    value: spec_fn(T) -> real,
) -> bool {
    forall|i: int, j: int|
        #![trigger kept[i][j]]
        0 <= i < length && 0 <= j < number && 0real < value(candidates[i][j]) ==> kept[i][j] == if i
            == 0 || i == length - 1 || near_one(
            candidates[i][j],
            candidates[i + 1],
            number,
            value,
        ) || near_one(candidates[i][j], candidates[i - 1], number, value) {
            values[i][j]
        } else {
            zero::<T>()
        }
}

/// Law: the contour is found among the candidates that a neighbouring frame goes on
/// with, by their own scores, and then smoothed.
pub proof fn law_contour_is_found_among_candidates_that_go_on<T: Scalar>(
    candidates: Seq<Seq<T>>,
    scores: Seq<Seq<T>>,
    frames: nat,
    number: nat,
    value: spec_fn(T) -> real,
) -> (w: (Seq<Seq<T>>, Seq<Seq<T>>))
    requires
        exact(value),
        0real <= value(safe_guard::<T>()),
        frames <= candidates.len(),
        frames <= scores.len(),
        forall|k: int| 0 <= k < frames ==> number <= (#[trigger] candidates[k]).len(),
        forall|k: int| 0 <= k < frames ==> number <= (#[trigger] scores[k]).len(),
    ensures
        goes_on_with(candidates, w.0, candidates, frames, number, value),
        goes_on_with(scores, w.1, candidates, frames, number, value),
        final_contour(candidates, scores, frames, number) == smoothed(
            fixed_contour(w.0, w.1, frames, number),
            repeated(frames, zero::<T>()),
        ),
{
    let kept = pruned(candidates, candidates, frames, number);
    let kept_scores = pruned(scores, candidates, frames, number);
    lemma_goes_on_with(candidates, candidates, frames, number, value);
    lemma_goes_on_with(scores, candidates, frames, number, value);
    (kept, kept_scores)
}

proof fn lemma_goes_on_with<T: Scalar>(
    values: Seq<Seq<T>>,
    candidates: Seq<Seq<T>>,
    length: nat,
    number: nat,
    value: spec_fn(T) -> real,
)
    requires
        exact(value),
        0real <= value(safe_guard::<T>()),
        length <= candidates.len(),
        length <= values.len(),
        forall|k: int| 0 <= k < length ==> number <= (#[trigger] candidates[k]).len(),
        forall|k: int| 0 <= k < length ==> number <= (#[trigger] values[k]).len(),
    ensures
        goes_on_with(
            values,
            pruned(values, candidates, length, number),
            candidates,
            length,
            number,
            value,
        ),
{
    let kept = pruned(values, candidates, length, number);
    assert forall|i: int, j: int|
        #![trigger kept[i][j]]
        0 <= i < length && 0 <= j < number && 0real < value(candidates[i][j]) implies kept[i][j]
        == if i == 0 || i == length - 1 || near_one(
        candidates[i][j],
        candidates[i + 1],
        number,
        value,
    ) || near_one(candidates[i][j], candidates[i - 1], number, value) {
        values[i][j]
    } else {
        zero::<T>()
    } by {
        law_candidates_that_go_on_stay(values, candidates, length, number, i, j, value);
    }
}

} // verus!
