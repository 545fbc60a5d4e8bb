//! From scored candidates to a contour: pruning of unreliable candidates, choice
//! of the best one in each frame, and the clean-up steps that look at one
//! contour only.
use crate::basics::{copied, grid, guard, lesser, my_min_f, nought, safe_guard, zero};
use crate::scalar::{Scalar, totally_ordered};
use crate::sections::{
    boundaries, get_boundary_list, in_section, law_boundaries_list_sections,
    lemma_run_within_section, lemma_sections_disjoint, lists_sections, voiced,
};
use vstd::prelude::*;
use vstd::slice::slice_subrange;

verus! {

/// The distance between `reference` and `candidate`, relative to `reference`.
pub open spec fn relative_error<T: Scalar>(reference: T, candidate: T) -> T {
    (reference - candidate).magnitude() / (reference + safe_guard::<T>())
}

/// The choice among the first `n` candidates and its error. A candidate replaces
/// the choice so far if it is positive and its error is not greater.
pub open spec fn best_of<T: Scalar>(reference: T, candidates: Seq<T>, allowed: T, n: int) -> (T, T)
    decreases n,
{
    if n <= 0 {
        (zero::<T>(), allowed)
    } else {
        let so_far = best_of(reference, candidates, allowed, n - 1);
        let c = candidates[n - 1];
        if c <= zero::<T>() || so_far.1 < relative_error(reference, c) {
            so_far
        } else {
            (c, relative_error(reference, c))
        }
    }
}

/// The candidate closest to `reference` and its relative error; zero and
/// `allowed` where no candidate comes within `allowed`.
pub open spec fn best<T: Scalar>(reference: T, candidates: Seq<T>, allowed: T) -> (T, T) {
    best_of(reference, candidates, allowed, candidates.len() as int)
}

/// Selects the candidate nearest to `reference_f0`, with its relative error.
pub fn select_best_f0<T: Scalar>(reference_f0: T, f0_candidates: &[T], allowed_range: T) -> (r: (
    T,
    T,
))
    ensures
        r == best(reference_f0, f0_candidates@, allowed_range),
{
    let o: T = nought();
    let g: T = guard();
    let mut best_f0: T = o;
    let mut best_error: T = allowed_range;
    for i in 0..f0_candidates.len()
        invariant
            o == zero::<T>(),
            g == safe_guard::<T>(),
            (best_f0, best_error) == best_of(reference_f0, f0_candidates@, allowed_range, i as int),
    {
        let c: T = f0_candidates[i];
        if !c.at_most(o) {
            let tmp: T = reference_f0.minus(c).abs().over(reference_f0.plus(g));
            if !best_error.less(tmp) {
                best_f0 = c;
                best_error = tmp;
            }
        }
    }
    (best_f0, best_error)
}

/// Law: the choice is zero at the allowed error, or it is one of the candidates,
/// positive, with its own relative error.
pub proof fn law_best_is_a_candidate<T: Scalar>(reference: T, candidates: Seq<T>, allowed: T)
    ensures
        ({
            let (b, e) = best(reference, candidates, allowed);
            ||| b == zero::<T>() && e == allowed
            ||| candidates.contains(b) && !(b <= zero::<T>()) && e == relative_error(reference, b)
        }),
{
    lemma_best_of_is_a_candidate(reference, candidates, allowed, candidates.len() as int);
}

proof fn lemma_best_of_is_a_candidate<T: Scalar>(
    reference: T,
    candidates: Seq<T>,
    allowed: T,
    n: int,
)
    requires
        n <= candidates.len(),
    ensures
        ({
            let (b, e) = best_of(reference, candidates, allowed, n);
            ||| b == zero::<T>() && e == allowed
            ||| candidates.contains(b) && !(b <= zero::<T>()) && e == relative_error(reference, b)
        }),
    decreases n,
{
    if n > 0 {
        lemma_best_of_is_a_candidate(reference, candidates, allowed, n - 1);
        assert(candidates.contains(candidates[n - 1]));
    }
}

/// Whether candidate `i` may be chosen: it is positive and within `allowed`.
pub open spec fn eligible<T: Scalar>(
    reference: T,
    candidates: Seq<T>,
    allowed: T,
    i: int,
) -> bool {
    !(candidates[i] <= zero::<T>()) && relative_error(reference, candidates[i]) <= allowed
}

/// Whether candidate `i` is the nearest of the first `n`: it may be chosen, no
/// positive one has a smaller error, and every later one has a greater.
pub open spec fn nearest<T: Scalar>(
    reference: T,
    candidates: Seq<T>,
    allowed: T,
    n: int,
    i: int,
) -> bool {
    &&& 0 <= i < n
    &&& eligible(reference, candidates, allowed, i)
    &&& forall|j: int|
        0 <= j < n && !(#[trigger] candidates[j] <= zero::<T>()) ==> {
            let e = relative_error(reference, candidates[i]);
            let other = relative_error(reference, candidates[j]);
            e <= other && (i < j ==> e < other)
        }
}

proof fn lemma_best_of_is_nearest<T: Scalar>(
    reference: T,
    candidates: Seq<T>,
    allowed: T,
    n: int,
) -> (i: int)
    requires
        totally_ordered::<T>(),
        0 <= n <= candidates.len(),
        !allowed.undefined(),
        forall|j: int|
            0 <= j < n && !(#[trigger] candidates[j] <= zero::<T>()) ==> !relative_error(
                reference,
                candidates[j],
            ).undefined(),
    ensures
        ({
            let (b, e) = best_of(reference, candidates, allowed, n);
            if i < 0 {
                &&& b == zero::<T>() && e == allowed
                &&& forall|j: int|
                    0 <= j < n ==> !#[trigger] eligible(reference, candidates, allowed, j)
            } else {
                &&& nearest(reference, candidates, allowed, n, i)
                &&& b == candidates[i]
                &&& e == relative_error(reference, candidates[i])
            }
        }),
    decreases n,
{
    if n == 0 {
        -1
    } else {
        let i = lemma_best_of_is_nearest(reference, candidates, allowed, n - 1);
        let so_far = best_of(reference, candidates, allowed, n - 1);
        let c = candidates[n - 1];
        let e = relative_error(reference, c);
        if c <= zero::<T>() {
            i
        } else if so_far.1 < e {
            assert(!(e <= so_far.1));
            if i < 0 {
                assert(!eligible(reference, candidates, allowed, n - 1));
            } else {
                assert(so_far.1 <= e);
            }
            i
        } else {
            assert(e <= so_far.1);
            assert forall|j: int|
                0 <= j < n && !(#[trigger] candidates[j] <= zero::<T>()) implies e
                <= relative_error(reference, candidates[j]) by {
                let other = relative_error(reference, candidates[j]);
                if j == n - 1 {
                    assert(e <= e);
                } else if i < 0 {
                    assert(!eligible(reference, candidates, allowed, j));
                    assert(allowed <= other || other <= allowed);
                    assert(e <= allowed && allowed <= other);
                } else {
                    assert(so_far.1 <= other);
                }
            }
            if i >= 0 {
                assert(so_far.1 <= allowed);
            }
            n - 1
        }
    }
}

/// Law: where errors are totally ordered, the choice is the nearest candidate, the
/// last of equally near ones; and zero only where no candidate may be chosen.
pub proof fn law_best_is_nearest<T: Scalar>(reference: T, candidates: Seq<T>, allowed: T) -> (i:
    int)
    requires
        totally_ordered::<T>(),
        !allowed.undefined(),
        forall|j: int|
            0 <= j < candidates.len() && !(#[trigger] candidates[j] <= zero::<T>())
                ==> !relative_error(reference, candidates[j]).undefined(),
    ensures
        ({
            let (b, e) = best(reference, candidates, allowed);
            if exists|j: int|
                0 <= j < candidates.len() && #[trigger] eligible(
                    reference,
                    candidates,
                    allowed,
                    j,
                ) {
                &&& nearest(reference, candidates, allowed, candidates.len() as int, i)
                &&& b == candidates[i]
                &&& e == relative_error(reference, candidates[i])
            } else {
                b == zero::<T>() && e == allowed
            }
        }),
{
    lemma_best_of_is_nearest(reference, candidates, allowed, candidates.len() as int)
}

/// The error with which the frequency `reference` goes on in a neighbouring
/// frame with the candidates `row`.
pub open spec fn continuation_error<T: Scalar>(reference: T, row: Seq<T>, number: nat) -> T {
    best(reference, row.take(number as int), T::of_int(1)).1
}

/// Whether candidate `j` of frame `i` is present and neither the next nor the
/// previous of the `length` frames has a candidate within five per cent of it.
pub open spec fn unreliable<T: Scalar>(
    candidates: Seq<Seq<T>>,
    length: nat,
    number: nat,
    i: int,
    j: int,
) -> bool {
    &&& 1 <= i < length - 1
    &&& 0 <= j < number
    &&& !candidates[i][j].equals(zero::<T>())
    &&& !(lesser(
        continuation_error(candidates[i][j], candidates[i + 1], number),
        continuation_error(candidates[i][j], candidates[i - 1], number),
    ) <= T::of_decimal(5, 2))
}

/// `values` with zero in place of every entry whose candidate is unreliable.
pub open spec fn pruned<T: Scalar>(
    values: Seq<Seq<T>>,
    candidates: Seq<Seq<T>>,
    length: nat,
    number: nat,
) -> Seq<Seq<T>> {
    Seq::new(
        values.len(),
        |i: int|
            Seq::new(
                values[i].len(),
                |j: int|
                    if unreliable(candidates, length, number, i, j) {
                        zero::<T>()
                    } else {
                        values[i][j]
                    },
            ),
    )
}

/// Law: pruning drops candidates and changes none: an entry stays or becomes zero.
pub proof fn law_pruning_only_removes<T: Scalar>(
    values: Seq<Seq<T>>,
    candidates: Seq<Seq<T>>,
    length: nat,
    number: nat,
    i: int,
    j: int,
)
    requires
        0 <= i < values.len(),
        0 <= j < values[i].len(),
    ensures
        ({
            let v = pruned(values, candidates, length, number)[i][j];
            v == values[i][j] || v == zero::<T>()
        }),
        j >= number ==> pruned(values, candidates, length, number)[i][j] == values[i][j],
{
}

/// Drops the candidates, and their scores, that do not go on in a neighbouring
/// frame.
pub fn remove_unreliable_candidates<T: Scalar>(
    f0_candidates: &mut Vec<Vec<T>>,
    f0_scores: &mut Vec<Vec<T>>,
    f0_length: usize,
    number_of_candidates: usize,
)
    requires
        f0_length <= old(f0_candidates)@.len(),
        f0_length <= old(f0_scores)@.len(),
        forall|i: int|
            0 <= i < old(f0_candidates)@.len() ==> number_of_candidates
                <= (#[trigger] old(f0_candidates)@[i])@.len(),
        forall|i: int|
            0 <= i < f0_length ==> number_of_candidates <= (#[trigger] old(f0_scores)@[i])@.len(),
    ensures
        grid(final(f0_candidates)@) == pruned(
            grid(old(f0_candidates)@),
            grid(old(f0_candidates)@),
            f0_length as nat,
            number_of_candidates as nat,
        ),
        grid(final(f0_scores)@) == pruned(
            grid(old(f0_scores)@),
            grid(old(f0_candidates)@),
            f0_length as nat,
            number_of_candidates as nat,
        ),
{
    let ghost c0 = grid(f0_candidates@);
    let ghost s0 = grid(f0_scores@);
    let ghost l = f0_length as nat;
    let ghost m = number_of_candidates as nat;
    let o: T = nought();
    let one: T = T::from_int(1);
    let limit: T = T::from_decimal(5, 2);
    let rows: usize = f0_candidates.len();
    let mut tmp: Vec<Vec<T>> = Vec::new();
    for i in 0..rows
        invariant
            rows == f0_candidates@.len(),
            c0 == grid(f0_candidates@),
            m == number_of_candidates,
            forall|k: int| 0 <= k < rows ==> m <= (#[trigger] f0_candidates@[k])@.len(),
            tmp@.len() == i,
            forall|k: int| 0 <= k < i ==> (#[trigger] tmp@[k])@ == c0[k].take(m as int),
    {
        assert(c0[i as int] == f0_candidates@[i as int]@);
        tmp.push(copied(slice_subrange(f0_candidates[i].as_slice(), 0, number_of_candidates)));
    }
    let last: usize = if f0_length > 0 { f0_length - 1 } else { 0 };
    let mut i: usize = 1;
    while i < last
        invariant
            o == zero::<T>(),
            one == T::of_int(1),
            limit == T::of_decimal(5, 2),
            l == f0_length,
            m == number_of_candidates,
            f0_length <= c0.len() == tmp@.len() == f0_candidates@.len(),
            f0_length <= s0.len() == f0_scores@.len(),
            1 <= i,
            last == if f0_length > 0 { f0_length - 1 } else { 0 },
            forall|k: int|
                0 <= k < c0.len() ==> m <= (#[trigger] c0[k]).len() && f0_candidates@[k]@.len()
                    == c0[k].len(),
            forall|k: int|
                0 <= k < s0.len() ==> (#[trigger] f0_scores@[k])@.len() == s0[k].len(),
            forall|k: int| 0 <= k < l ==> m <= (#[trigger] s0[k]).len(),
            forall|k: int| 0 <= k < c0.len() ==> (#[trigger] tmp@[k])@ == c0[k].take(m as int),
            forall|k: int, j: int|
                0 <= k < c0.len() && 0 <= j < c0[k].len() ==> (#[trigger] f0_candidates@[k]@[j])
                    == if k < i && unreliable(c0, l, m, k, j) {
                    o
                } else {
                    c0[k][j]
                },
            forall|k: int, j: int|
                0 <= k < s0.len() && 0 <= j < s0[k].len() ==> (#[trigger] f0_scores@[k]@[j])
                    == if k < i && unreliable(c0, l, m, k, j) {
                    o
                } else {
                    s0[k][j]
                },
        decreases f0_length - i,
    {
        for j in 0..number_of_candidates
            invariant
                o == zero::<T>(),
                one == T::of_int(1),
                limit == T::of_decimal(5, 2),
                l == f0_length,
                m == number_of_candidates,
                f0_length <= c0.len() == tmp@.len() == f0_candidates@.len(),
                f0_length <= s0.len() == f0_scores@.len(),
                1 <= i,
                i + 1 < f0_length,
                forall|k: int|
                    0 <= k < c0.len() ==> m <= (#[trigger] c0[k]).len() && f0_candidates@[k]@.len()
                        == c0[k].len(),
                forall|k: int|
                    0 <= k < s0.len() ==> (#[trigger] f0_scores@[k])@.len() == s0[k].len(),
                forall|k: int| 0 <= k < l ==> m <= (#[trigger] s0[k]).len(),
                forall|k: int| 0 <= k < c0.len() ==> (#[trigger] tmp@[k])@ == c0[k].take(m as int),
                forall|k: int, n: int|
                    0 <= k < c0.len() && 0 <= n < c0[k].len() ==> (#[trigger] f0_candidates@[k]@[n])
                        == if (k < i || k == i && n < j) && unreliable(c0, l, m, k, n) {
                        o
                    } else {
                        c0[k][n]
                    },
                forall|k: int, n: int|
                    0 <= k < s0.len() && 0 <= n < s0[k].len() ==> (#[trigger] f0_scores@[k]@[n])
                        == if (k < i || k == i && n < j) && unreliable(c0, l, m, k, n) {
                        o
                    } else {
                        s0[k][n]
                    },
        {
            assert(m <= c0[i as int].len() && m <= s0[i as int].len());
            let reference: T = f0_candidates[i][j];
            assert(reference == c0[i as int][j as int]);
            if !reference.same(o) {
                let e1: T = select_best_f0(reference, tmp[i + 1].as_slice(), one).1;
                let e2: T = select_best_f0(reference, tmp[i - 1].as_slice(), one).1;
                if !my_min_f(e1, e2).at_most(limit) {
                    f0_candidates[i][j] = o;
                    f0_scores[i][j] = o;
                }
            }
        }
        i = i + 1;
    }
    assert(grid(f0_candidates@) =~~= pruned(c0, c0, l, m));
    assert(grid(f0_scores@) =~~= pruned(s0, c0, l, m));
}

/// The best candidate among the first `n` and its score: the first one with a
/// score above all scores before it and above zero.
pub open spec fn top_scored<T: Scalar>(candidates: Seq<T>, scores: Seq<T>, n: int) -> (T, T)
    decreases n,
{
    if n <= 0 {
        (zero::<T>(), zero::<T>())
    } else {
        let so_far = top_scored(candidates, scores, n - 1);
        if so_far.1 < scores[n - 1] {
            (candidates[n - 1], scores[n - 1])
        } else {
            so_far
        }
    }
}

/// Whether score `i` is the first of the greatest among the first `n`, and
/// positive.
pub open spec fn first_of_greatest<T: Scalar>(scores: Seq<T>, n: int, i: int) -> bool {
    &&& 0 <= i < n
    &&& zero::<T>() < scores[i]
    &&& forall|j: int|
        0 <= j < n ==> #[trigger] scores[j] <= scores[i] && (j < i ==> scores[j] < scores[i])
}

/// Law: where scores are totally ordered, the best candidate is the one with the
/// greatest score, the first of equals; and zero only where no score is positive.
pub proof fn law_top_scored_is_greatest<T: Scalar>(
    candidates: Seq<T>,
    scores: Seq<T>,
    n: int,
) -> (i: int)
    requires
        totally_ordered::<T>(),
        0 <= n <= scores.len(),
        !zero::<T>().undefined(),
        forall|j: int| 0 <= j < n ==> !(#[trigger] scores[j]).undefined(),
    ensures
        ({
            let (c, s) = top_scored(candidates, scores, n);
            if exists|j: int| 0 <= j < n && zero::<T>() < #[trigger] scores[j] {
                first_of_greatest(scores, n, i) && c == candidates[i] && s == scores[i]
            } else {
                i < 0 && c == zero::<T>() && s == zero::<T>()
            }
        }),
    decreases n,
{
    if n == 0 {
        -1
    } else {
        let i = law_top_scored_is_greatest(candidates, scores, n - 1);
        let best = top_scored(candidates, scores, n - 1).1;
        let last = scores[n - 1];
        if best < last {
            assert(best <= last);
            assert forall|j: int| 0 <= j < n implies #[trigger] scores[j] <= last && (j < n - 1
                ==> scores[j] < last) by {
                if j == n - 1 {
                    assert(last <= last);
                } else {
                    if i < 0 {
                        assert(!(zero::<T>() < scores[j]));
                        assert(scores[j] <= zero::<T>());
                    }
                    assert(scores[j] <= best);
                    assert(scores[j] <= last);
                    if last <= scores[j] {
                        assert(last <= best);
                    }
                }
            }
            if i < 0 {
                assert(zero::<T>() < last);
            } else {
                assert(zero::<T>() < best);
                if last <= zero::<T>() {
                    assert(best <= zero::<T>());
                }
            }
            n - 1
        } else {
            assert(last <= best);
            if i < 0 {
                assert(!(zero::<T>() < last));
            }
            i
        }
    }
}

/// The best candidate of each of the `length` frames.
pub open spec fn base_contour<T: Scalar>(
    candidates: Seq<Seq<T>>,
    scores: Seq<Seq<T>>,
    length: nat,
    number: nat,
) -> Seq<T> {
    Seq::new(length, |i: int| top_scored(candidates[i], scores[i], number as int).0)
}

/// Takes the candidate with the best score in each frame.
pub fn search_f0_base<T: Scalar>(
    f0_candidates: &Vec<Vec<T>>,
    f0_scores: &Vec<Vec<T>>,
    f0_length: usize,
    number_of_candidates: usize,
) -> (base: Vec<T>)
    requires
        f0_length <= f0_candidates@.len(),
        f0_length <= f0_scores@.len(),
        forall|i: int|
            0 <= i < f0_length ==> number_of_candidates <= (#[trigger] f0_candidates@[i])@.len(),
        forall|i: int|
            0 <= i < f0_length ==> number_of_candidates <= (#[trigger] f0_scores@[i])@.len(),
    ensures
        base@ == base_contour(
            grid(f0_candidates@),
            grid(f0_scores@),
            f0_length as nat,
            number_of_candidates as nat,
        ),
{
    let o: T = nought();
    let mut base: Vec<T> = Vec::with_capacity(f0_length);
    for i in 0..f0_length
        invariant
            o == zero::<T>(),
            f0_length <= f0_candidates@.len(),
            f0_length <= f0_scores@.len(),
            forall|k: int|
                0 <= k < f0_length ==> number_of_candidates <= (
                #[trigger] f0_candidates@[k])@.len(),
            forall|k: int|
                0 <= k < f0_length ==> number_of_candidates <= (#[trigger] f0_scores@[k])@.len(),
            base@ == base_contour(
                grid(f0_candidates@),
                grid(f0_scores@),
                i as nat,
                number_of_candidates as nat,
            ),
    {
        let candidates: &Vec<T> = &f0_candidates[i];
        let scores: &Vec<T> = &f0_scores[i];
        let mut best: T = o;
        let mut best_score: T = o;
        for j in 0..number_of_candidates
            invariant
                number_of_candidates <= candidates@.len(),
                number_of_candidates <= scores@.len(),
                (best, best_score) == top_scored(candidates@, scores@, j as int),
        {
            if best_score.less(scores[j]) {
                best = candidates[j];
                best_score = scores[j];
            }
        }
        base.push(best);
    }
    base
}

/// Whether frame `i` departs by more than `allowed` both from the line through
/// the two frames before it and from the frame before it.
pub open spec fn jumps<T: Scalar>(base: Seq<T>, allowed: T, i: int) -> bool {
    let reference = base[i - 1] * T::of_int(2) - base[i - 2];
    &&& allowed < ((base[i] - reference) / (reference + safe_guard::<T>())).magnitude()
    &&& allowed < ((base[i] - base[i - 1]) / (base[i - 1] + safe_guard::<T>())).magnitude()
}

/// `base` without its first two frames and without the frames that jump.
pub open spec fn without_jumps<T: Scalar>(base: Seq<T>, allowed: T) -> Seq<T> {
    Seq::new(
        base.len(),
        |i: int|
            if i < 2 || base[i].equals(zero::<T>()) || jumps(base, allowed, i) {
                zero::<T>()
            } else {
                base[i]
            },
    )
}

/// Removes frames at which the contour jumps.
pub fn fix_step1<T: Scalar>(f0_base: &[T], allowed_range: T) -> (out: Vec<T>)
    ensures
        out@ == without_jumps(f0_base@, allowed_range),
{
    let o: T = nought();
    let g: T = guard();
    let two: T = T::from_int(2);
    let mut out: Vec<T> = Vec::with_capacity(f0_base.len());
    for i in 0..f0_base.len()
        invariant
            o == zero::<T>(),
            g == safe_guard::<T>(),
            two == T::of_int(2),
            out@ == without_jumps(f0_base@, allowed_range).take(i as int),
    {
        let mut v: T = o;
        if i >= 2 && !f0_base[i].same(o) {
            let reference: T = f0_base[i - 1].times(two).minus(f0_base[i - 2]);
            let cond1: bool = allowed_range.less(
                f0_base[i].minus(reference).over(reference.plus(g)).abs(),
            );
            let cond2: bool = allowed_range.less(
                f0_base[i].minus(f0_base[i - 1]).over(f0_base[i - 1].plus(g)).abs(),
            );
            if !(cond1 && cond2) {
                v = f0_base[i];
            }
        }
        out.push(v);
    }
    out
}

/// Whether section `k` of `b` spans fewer than `minimum` frames after its first.
pub open spec fn short_section(b: Seq<usize>, k: int, minimum: nat) -> bool {
    b[2 * k + 1] - b[2 * k] < minimum
}

/// Whether frame `p` lies in a voiced section of `f0` that is too short.
pub open spec fn in_short_section<T: Scalar>(f0: Seq<T>, minimum: nat, p: int) -> bool {
    exists|k: int|
        #[trigger] in_section(boundaries(f0), k, p) && short_section(boundaries(f0), k, minimum)
}

/// `f0` without its short voiced sections.
pub open spec fn without_short_sections<T: Scalar>(f0: Seq<T>, minimum: nat) -> Seq<T> {
    Seq::new(
        f0.len(),
        |p: int|
            if in_short_section(f0, minimum, p) {
                zero::<T>()
            } else {
                f0[p]
            },
    )
}

/// Removes voiced sections that are too short.
pub fn fix_step2<T: Scalar>(f0_step1: &[T], voice_range_minimum: usize) -> (out: Vec<T>)
    ensures
        out@ == without_short_sections(f0_step1@, voice_range_minimum as nat),
{
    let o: T = nought();
    let mut out: Vec<T> = copied(f0_step1);
    let b: Vec<usize> = get_boundary_list(f0_step1);
    let number: usize = b.len();
    let length: usize = f0_step1.len();
    let ghost f = f0_step1@;
    let ghost m = voice_range_minimum as nat;
    for i in 0..number / 2
        invariant
            o == zero::<T>(),
            f == f0_step1@,
            m == voice_range_minimum,
            length == f.len(),
            number == b@.len(),
            b@ == boundaries(f),
            lists_sections(f, b@),
            out@.len() == f.len(),
            forall|p: int|
                0 <= p < f.len() ==> #[trigger] out@[p] == if exists|k: int|
                    k < i && #[trigger] in_section(b@, k, p) && short_section(b@, k, m) {
                    o
                } else {
                    f[p]
                },
    {
        let st: usize = b[i * 2];
        let ed: usize = b[i * 2 + 1];
        assert(b@[2 * i] <= b@[2 * i + 1] < length);
        if ed - st < voice_range_minimum {
            let ghost before = out@;
            for j in st..ed + 1
                invariant
                    o == zero::<T>(),
                    ed < f.len() == out@.len() == before.len(),
                    st <= ed,
                    forall|p: int|
                        0 <= p < f.len() ==> #[trigger] out@[p] == if st <= p < j {
                            o
                        } else {
                            before[p]
                        },
            {
                out[j] = o;
            }
            assert forall|p: int| 0 <= p < f.len() implies #[trigger] out@[p] == if exists|k: int|
                k < i + 1 && #[trigger] in_section(b@, k, p) && short_section(b@, k, m) {
                o
            } else {
                f[p]
            } by {
                assert(st <= p <= ed || out@[p] == before[p]);
                if st <= p <= ed {
                    assert(in_section(b@, i as int, p) && short_section(b@, i as int, m));
                }
            }
        }
    }
    assert(out@ =~= without_short_sections(f, m));
    out
}

/// Law: a frame that the first two steps touch becomes zero.
pub proof fn law_cleaning_only_removes<T: Scalar>(f0: Seq<T>, allowed: T, minimum: nat, p: int)
    requires
        0 <= p < f0.len(),
    ensures
        without_jumps(f0, allowed)[p] == f0[p] || without_jumps(f0, allowed)[p] == zero::<T>(),
        without_short_sections(f0, minimum)[p] == f0[p] || without_short_sections(f0, minimum)[p]
            == zero::<T>(),
{
}

/// Law: where zero is not below itself, every voiced section that remains spans
/// at least `minimum` frames after its first.
pub proof fn law_no_short_section_remains<T: Scalar>(f0: Seq<T>, minimum: nat, k: int)
    requires
        f0.len() <= usize::MAX,
        !(zero::<T>() < zero::<T>()),
        0 <= k < boundaries(without_short_sections(f0, minimum)).len() / 2,
    ensures
        !short_section(boundaries(without_short_sections(f0, minimum)), k, minimum),
{
    let g = without_short_sections(f0, minimum);
    let b = boundaries(g);
    let a = boundaries(f0);
    law_boundaries_list_sections(f0);
    law_boundaries_list_sections(g);
    let s = b[2 * k] as int;
    let e = b[2 * k + 1] as int;
    assert(s <= e);
    assert(in_section(b, k, s));
    assert(voiced(g, s));
    assert(voiced(f0, s));
    let l = choose|l: int| in_section(a, l, s);
    assert(in_section(a, l, s));
    assert(!short_section(a, l, minimum));
    let first = a[2 * l] as int;
    let last = a[2 * l + 1] as int;
    assert forall|p: int| first <= p <= last implies #[trigger] voiced(g, p) by {
        assert(in_section(a, l, p));
        assert(voiced(f0, p));
        if in_short_section(f0, minimum, p) {
            let m = choose|m: int| #[trigger] in_section(a, m, p) && short_section(a, m, minimum);
            lemma_sections_disjoint(a, l, m, p);
        }
    }
    lemma_run_within_section(g, b, k, s, first, last);
}

/// Whether frame `p` lies between sections `k` and `k + 1` of `b`, with fewer
/// than `threshold` frames between the two.
pub open spec fn in_short_gap(b: Seq<usize>, k: int, threshold: nat, p: int) -> bool {
    &&& 0 <= k < b.len() / 2 - 1
    &&& b[2 * k + 1] < p < b[2 * k + 2]
    &&& b[2 * k + 2] - b[2 * k + 1] - 1 < threshold
}

/// The value at frame `p` of the line that bridges the gap after section `k`,
/// from one above the last frame before it to one below the first after it.
pub open spec fn bridge<T: Scalar>(f0: Seq<T>, b: Seq<usize>, k: int, p: int) -> T {
    let last = b[2 * k + 1] as int;
    let next = b[2 * k + 2] as int;
    let low = f0[last] + T::of_int(1);
    let high = f0[next] - T::of_int(1);
    let slope = (high - low) / (T::of_int(next - last - 1) + T::of_int(1));
    low + slope * T::of_int(p - last)
}

/// `f0` with its short gaps bridged.
pub open spec fn with_gaps_bridged<T: Scalar>(f0: Seq<T>, threshold: nat) -> Seq<T> {
    let b = boundaries(f0);
    Seq::new(
        f0.len(),
        |p: int|
            if exists|k: int| in_short_gap(b, k, threshold, p) {
                bridge(f0, b, choose|k: int| in_short_gap(b, k, threshold, p), p)
            } else {
                f0[p]
            },
    )
}

/// Law: bridging changes no voiced frame.
pub proof fn law_bridging_keeps_voiced_frames<T: Scalar>(f0: Seq<T>, threshold: nat, p: int)
    requires
        f0.len() <= usize::MAX,
        0 <= p < f0.len(),
        voiced(f0, p),
    ensures
        with_gaps_bridged(f0, threshold)[p] == f0[p],
{
    let b = boundaries(f0);
    law_boundaries_list_sections(f0);
    let l = choose|l: int| in_section(b, l, p);
    if exists|k: int| in_short_gap(b, k, threshold, p) {
        let k = choose|k: int| in_short_gap(b, k, threshold, p);
        if l <= k {
            assert(b[2 * l + 1] <= b[2 * k + 1]);
        } else {
            assert(b[2 * k + 2] <= b[2 * l]);
        }
    }
}

/// Bridges short gaps.
pub fn fix_step4<T: Scalar>(f0_step3: &[T], threshold: usize) -> (out: Vec<T>)
    ensures
        out@ == with_gaps_bridged(f0_step3@, threshold as nat),
{
    let one: T = T::from_int(1);
    let mut out: Vec<T> = copied(f0_step3);
    let b: Vec<usize> = get_boundary_list(f0_step3);
    let number: usize = b.len();
    let sections: usize = number / 2;
    let length: usize = f0_step3.len();
    let ghost f = f0_step3@;
    let ghost t = threshold as nat;
    if sections < 2 {
        assert(out@ =~= with_gaps_bridged(f, t));
        return out;
    }
    for i in 0..sections - 1
        invariant
            one == T::of_int(1),
            f == f0_step3@,
            t == threshold,
            length == f.len(),
            number == b@.len(),
            sections == number / 2,
            sections >= 2,
            b@ == boundaries(f),
            lists_sections(f, b@),
            out@.len() == f.len(),
            forall|p: int, k: int|
                0 <= p < f.len() && k < i && #[trigger] in_short_gap(b@, k, t, p) ==> out@[p]
                    == bridge(f, b@, k, p),
            forall|p: int|
                0 <= p < f.len() && (forall|k: int| k < i ==> !in_short_gap(b@, k, t, p))
                    ==> #[trigger] out@[p] == f[p],
    {
        let prev_end: usize = b[i * 2 + 1];
        let next_start: usize = b[(i + 1) * 2];
        assert(prev_end + 1 < next_start < length) by {
            assert((2 * i + 1) / 2 < (2 * i + 2) / 2);
            assert(b@[2 * i + 1] + 1 < b@[2 * i + 2]);
        }
        let distance: usize = next_start - (prev_end + 1);
        if distance < threshold {
            let tmp0: T = f0_step3[prev_end].plus(one);
            let tmp1: T = f0_step3[next_start].minus(one);
            let coef: T = tmp1.minus(tmp0).over(T::from_int(distance as i128).plus(one));
            let ghost before = out@;
            for j in prev_end + 1..next_start
                invariant
                    next_start < f.len() == out@.len() == before.len(),
                    0 <= i < sections - 1,
                    sections == b@.len() / 2,
                    prev_end == b@[2 * i + 1],
                    next_start == b@[2 * i + 2],
                    prev_end + 1 < next_start,
                    tmp0 == f[prev_end as int] + T::of_int(1),
                    tmp1 == f[next_start as int] - T::of_int(1),
                    coef == (tmp1 - tmp0) / (T::of_int(next_start - prev_end - 1) + T::of_int(1)),
                    forall|p: int|
                        0 <= p < f.len() ==> #[trigger] out@[p] == if prev_end < p < j {
                            bridge(f, b@, i as int, p)
                        } else {
                            before[p]
                        },
            {
                let count: usize = j - prev_end;
                out[j] = tmp0.plus(coef.times(T::from_int(count as i128)));
            }
            assert forall|p: int, k: int|
                0 <= p < f.len() && k < i + 1 && #[trigger] in_short_gap(
                    b@,
                    k,
                    t,
                    p,
                ) implies out@[p] == bridge(f, b@, k, p) by {
                if k < i {
                    assert(b@[2 * k + 2] <= b@[2 * i + 1]);
                }
            }
            assert forall|p: int|
                0 <= p < f.len() && (forall|k: int|
                    k < i + 1 ==> !in_short_gap(b@, k, t, p)) implies #[trigger] out@[p] == f[p] by {
                assert(!in_short_gap(b@, i as int, t, p));
                assert(before[p] == f[p]);
            }
        }
    }
    assert forall|p: int| 0 <= p < f.len() implies #[trigger] out@[p] == with_gaps_bridged(
        f,
        t,
    )[p] by {
        if exists|k: int| in_short_gap(b@, k, t, p) {
            let k = choose|k: int| in_short_gap(b@, k, t, p);
            assert(in_short_gap(b@, k, t, p));
        }
    }
    assert(out@ =~= with_gaps_bridged(f, t));
    out
}

/// Law: at most one gap holds a frame, so the bridge over a frame does not
/// depend on how its gap is named.
pub proof fn law_gap_is_unique<T: Scalar>(f0: Seq<T>, threshold: nat, k: int, l: int, p: int)
    requires
        f0.len() <= usize::MAX,
        in_short_gap(boundaries(f0), k, threshold, p),
        in_short_gap(boundaries(f0), l, threshold, p),
    ensures
        k == l,
{
    law_boundaries_list_sections(f0);
    let b = boundaries(f0);
    if k < l {
        assert(b[2 * k + 2] <= b[2 * l + 1]);
    } else if l < k {
        assert(b[2 * l + 2] <= b[2 * k + 1]);
    }
}

} // verus!
