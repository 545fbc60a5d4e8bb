//! Merging of the selected sections into one contour, and the whole clean-up of
//! a contour.
use crate::basics::{copied, grid, nought, zero};
use crate::contour::{
    base_contour, fix_step1, fix_step2, fix_step4, search_f0_base, with_gaps_bridged,
    without_jumps, without_short_sections,
};
use crate::extension::{
    extend, extended, law_extension_stays_in_bounds, offered, sections_fit, Offer,
};
use crate::scalar::{Scalar, exact, totally_ordered};
use crate::sections::{
    boundaries, channels, get_boundary_list, get_multi_channel_f0, law_boundaries_list_sections,
};
use vstd::prelude::*;

verus! {

/// The position at which section `x` enters the list `order` so that sections
/// stay sorted by their first frame, behind those with the same first frame.
pub open spec fn place(order: Seq<usize>, b: Seq<usize>, x: int) -> int
    decreases order.len(),
{
    if order.len() == 0 || b[2 * order.last()] <= b[2 * x] {
        order.len() as int
    } else {
        place(order.drop_last(), b, x)
    }
}

/// The first `n` sections of `b`, sorted by their first frame; sections with the
/// same first frame keep their order.
pub open spec fn sorted_order(b: Seq<usize>, n: int) -> Seq<usize>
    decreases n,
{
    if n <= 0 {
        Seq::empty()
    } else {
        let order = sorted_order(b, n - 1);
        order.insert(place(order, b, n - 1), (n - 1) as usize)
    }
}

/// Whether section `x` comes before section `y`.
pub open spec fn comes_before(b: Seq<usize>, x: int, y: int) -> bool {
    b[2 * x] < b[2 * y] || (b[2 * x] == b[2 * y] && x < y)
}

proof fn lemma_place(order: Seq<usize>, b: Seq<usize>, x: int)
    requires
        forall|i: int, j: int|
            0 <= i < j < order.len() ==> b[2 * (#[trigger] order[i])] <= b[2 * (
            #[trigger] order[j])],
    ensures
        0 <= place(order, b, x) <= order.len(),
        forall|i: int| 0 <= i < place(order, b, x) ==> b[2 * (#[trigger] order[i])] <= b[2 * x],
        forall|i: int|
            place(order, b, x) <= i < order.len() ==> b[2 * x] < b[2 * (#[trigger] order[i])],
    decreases order.len(),
{
    if order.len() == 0 || b[2 * order.last()] <= b[2 * x] {
    } else {
        lemma_place(order.drop_last(), b, x);
        assert forall|i: int| place(order, b, x) <= i < order.len() implies b[2 * x] < b[2 * (
        #[trigger] order[i])] by {
            if i < order.len() - 1 {
                assert(order.drop_last()[i] == order[i]);
            }
        }
        assert forall|i: int| 0 <= i < place(order, b, x) implies b[2 * (#[trigger] order[i])]
            <= b[2 * x] by {
            assert(order.drop_last()[i] == order[i]);
        }
    }
}

/// Law: the sorted order is a rearrangement of the first `n` sections in which
/// each section comes before those that follow it.
pub proof fn law_sorted_order(b: Seq<usize>, n: int)
    requires
        0 <= n <= usize::MAX,
    ensures
        sorted_order(b, n).len() == n,
        sorted_order(b, n).no_duplicates(),
        forall|i: int| 0 <= i < n ==> 0 <= #[trigger] sorted_order(b, n)[i] < n,
        forall|x: int| 0 <= x < n ==> sorted_order(b, n).contains(#[trigger] (x as usize)),
        forall|i: int, j: int|
            0 <= i < j < n ==> comes_before(
                b,
                #[trigger] sorted_order(b, n)[i] as int,
                #[trigger] sorted_order(b, n)[j] as int,
            ),
    decreases n,
{
    if n > 0 {
        law_sorted_order(b, n - 1);
        let before = sorted_order(b, n - 1);
        lemma_place(before, b, n - 1);
        let at = place(before, b, n - 1);
        let now = sorted_order(b, n);
        assert forall|x: int| 0 <= x < n implies now.contains(#[trigger] (x as usize)) by {
            if x == n - 1 {
                assert(now[at] == x as usize);
            } else {
                let i = choose|i: int| 0 <= i < before.len() && before[i] == x as usize;
                if i < at {
                    assert(now[i] == before[i]);
                } else {
                    assert(now[i + 1] == before[i]);
                }
            }
        }
    }
}

/// The order in which the sections are merged.
pub fn make_sorted_order(boundary_list: &[usize], number_of_sections: usize) -> (order: Vec<usize>)
    requires
        number_of_sections == 0 || 2 * (number_of_sections - 1) < boundary_list@.len(),
    ensures
        order@ == sorted_order(boundary_list@, number_of_sections as int),
        order@.len() == number_of_sections,
        order@.no_duplicates(),
        forall|i: int| 0 <= i < order@.len() ==> #[trigger] order@[i] < number_of_sections,
        forall|i: int, j: int|
            0 <= i < j < order@.len() ==> comes_before(
                boundary_list@,
                #[trigger] order@[i] as int,
                #[trigger] order@[j] as int,
            ),
{
    let number_of_boundaries: usize = boundary_list.len();
    let ghost b = boundary_list@;
    let mut order: Vec<usize> = Vec::with_capacity(number_of_sections);
    for x in 0..number_of_sections
        invariant
            b == boundary_list@,
            number_of_boundaries == b.len(),
            number_of_sections == 0 || 2 * (number_of_sections - 1) < b.len(),
            order@ == sorted_order(b, x as int),
    {
        proof {
            law_sorted_order(b, x as int);
            lemma_place(order@, b, x as int);
            assert(order@.take(order@.len() as int) =~= order@);
        }
        let mut at: usize = order.len();
        while at > 0 && boundary_list[2 * order[at - 1]] > boundary_list[2 * x]
            invariant
                b == boundary_list@,
                number_of_boundaries == b.len(),
                2 * (number_of_sections - 1) < b.len(),
                x < number_of_sections,
                at <= order@.len() == x,
                forall|i: int| 0 <= i < x ==> 0 <= #[trigger] order@[i] < x,
                place(order@, b, x as int) == place(order@.take(at as int), b, x as int),
            ensures
                at == place(order@, b, x as int),
                at <= order@.len(),
            decreases at,
        {
            assert(order@.take(at as int).drop_last() =~= order@.take(at - 1));
            at = at - 1;
        }
        order.insert(at, x);
    }
    proof {
        law_sorted_order(b, number_of_sections as int);
    }
    order
}

/// The greatest score above zero among the first `n` candidates that equal `f0`.
pub open spec fn score_of<T: Scalar>(f0: T, candidates: Seq<T>, scores: Seq<T>, n: int) -> T
    decreases n,
{
    if n <= 0 {
        zero::<T>()
    } else {
        let so_far = score_of(f0, candidates, scores, n - 1);
        if f0.equals(candidates[n - 1]) && so_far < scores[n - 1] {
            scores[n - 1]
        } else {
            so_far
        }
    }
}

/// Finds the score of a frequency among candidates.
pub fn search_score<T: Scalar>(
    f0: T,
    f0_candidates: &[T],
    f0_scores: &[T],
    number_of_candidates: usize,
) -> (score: T)
    requires
        number_of_candidates <= f0_candidates@.len(),
        number_of_candidates <= f0_scores@.len(),
    ensures
        score == score_of(f0, f0_candidates@, f0_scores@, number_of_candidates as int),
{
    let mut score: T = nought();
    for i in 0..number_of_candidates
        invariant
            number_of_candidates <= f0_candidates@.len(),
            number_of_candidates <= f0_scores@.len(),
            score == score_of(f0, f0_candidates@, f0_scores@, i as int),
    {
        if f0.same(f0_candidates[i]) && score.less(f0_scores[i]) {
            score = f0_scores[i];
        }
    }
    score
}

/// Candidates and scores of all frames, the first `number` of each row.
pub struct Evidence<T> {
    pub candidates: Seq<Seq<T>>,
    pub scores: Seq<Seq<T>>,
    pub number: nat,
}

impl<T: Scalar> Evidence<T> {
    /// Every one of `length` frames has enough candidates and scores.
    pub open spec fn covers(self, length: nat) -> bool {
        &&& length <= self.candidates.len()
        &&& length <= self.scores.len()
        &&& forall|p: int| 0 <= p < length ==> self.number <= (#[trigger] self.candidates[p]).len()
        &&& forall|p: int| 0 <= p < length ==> self.number <= (#[trigger] self.scores[p]).len()
    }

    /// The scores of `contour` over the frames from `lo` up to `hi`, added up.
    pub open spec fn support(self, contour: Seq<T>, lo: int, hi: int) -> T
        decreases hi - lo,
    {
        if hi <= lo {
            zero::<T>()
        } else {
            self.support(contour, lo, hi - 1) + score_of(
                contour[hi - 1],
                self.candidates[hi - 1],
                self.scores[hi - 1],
                self.number as int,
            )
        }
    }
}

/// What matrices of candidates and scores tell.
pub open spec fn evidence<T: Scalar>(
    candidates: Seq<Vec<T>>,
    scores: Seq<Vec<T>>,
    number: usize,
) -> Evidence<T> {
    Evidence { candidates: grid(candidates), scores: grid(scores), number: number as nat }
}

/// `under` with the frames from `lo` to `hi` taken from `over`.
pub open spec fn overlaid<T>(under: Seq<T>, over: Seq<T>, lo: int, hi: int) -> Seq<T> {
    Seq::new(under.len(), |p: int| if lo <= p <= hi { over[p] } else { under[p] })
}

/// A section from `st1` to `ed1` of `merged` joined with the overlapping section
/// from `st2` to `ed2` of `other`, and the last frame of the result. Where the
/// two overlap, the one with the greater support wins.
pub open spec fn joined<T: Scalar>(
    merged: Seq<T>,
    st1: int,
    ed1: int,
    other: Seq<T>,
    st2: int,
    ed2: int,
    evidence: Evidence<T>,
) -> (Seq<T>, int) {
    if st1 <= st2 && ed1 >= ed2 {
        (merged, ed1)
    } else {
        let hi = if ed1 < merged.len() { ed1 + 1 } else { merged.len() as int };
        if evidence.support(other, st2, hi) < evidence.support(merged, st2, hi) {
            (overlaid(merged, other, ed1, ed2), ed2)
        } else {
            (overlaid(merged, other, st2, ed2), ed2)
        }
    }
}

fn overlay<T: Scalar>(under: &mut Vec<T>, over: &[T], lo: usize, hi: usize)
    requires
        over@.len() == old(under)@.len(),
    ensures
        final(under)@ == overlaid(old(under)@, over@, lo as int, hi as int),
{
    let ghost before = under@;
    let mut p: usize = lo;
    while p < under.len() && p <= hi
        invariant
            before.len() == under@.len() == over@.len(),
            lo <= p,
            forall|q: int|
                0 <= q < before.len() ==> #[trigger] under@[q] == if lo <= q < p {
                    over@[q]
                } else {
                    before[q]
                },
            p > lo ==> p <= hi + 1 && p <= under@.len(),
        decreases under@.len() - p,
    {
        under[p] = over[p];
        p = p + 1;
    }
    assert(under@ =~= overlaid(before, over@, lo as int, hi as int));
}

/// Joins a section with the merged contour and returns its last frame.
pub fn merge_f0_sub<T: Scalar>(
    merged: &mut Vec<T>,
    st1: usize,
    ed1: usize,
    f0_2: &[T],
    st2: usize,
    ed2: usize,
    f0_candidates: &Vec<Vec<T>>,
    f0_scores: &Vec<Vec<T>>,
    number_of_candidates: usize,
) -> (new_end: usize)
    requires
        f0_2@.len() == old(merged)@.len(),
        evidence(f0_candidates@, f0_scores@, number_of_candidates).covers(old(merged)@.len()),
    ensures
        (final(merged)@, new_end as int) == joined(
            old(merged)@,
            st1 as int,
            ed1 as int,
            f0_2@,
            st2 as int,
            ed2 as int,
            evidence(f0_candidates@, f0_scores@, number_of_candidates),
        ),
{
    let ghost ev = evidence(f0_candidates@, f0_scores@, number_of_candidates);
    if st1 <= st2 && ed1 >= ed2 {
        return ed1;
    }
    let mut score1: T = nought();
    let mut score2: T = nought();
    let hi: usize = if ed1 < merged.len() { ed1 + 1 } else { merged.len() };
    let mut i: usize = st2;
    while i < hi
        invariant
            ev == evidence(f0_candidates@, f0_scores@, number_of_candidates),
            ev.covers(merged@.len()),
            hi <= merged@.len() == f0_2@.len(),
            st2 <= i,
            i > st2 ==> i <= hi,
            score1 == ev.support(merged@, st2 as int, i as int),
            score2 == ev.support(f0_2@, st2 as int, i as int),
        decreases hi - i,
    {
        assert(ev.candidates[i as int] == f0_candidates@[i as int]@);
        assert(ev.scores[i as int] == f0_scores@[i as int]@);
        score1 = score1.plus(
            search_score(
                merged[i],
                f0_candidates[i].as_slice(),
                f0_scores[i].as_slice(),
                number_of_candidates,
            ),
        );
        score2 = score2.plus(
            search_score(
                f0_2[i],
                f0_candidates[i].as_slice(),
                f0_scores[i].as_slice(),
                number_of_candidates,
            ),
        );
        i = i + 1;
    }
    proof {
        lemma_support_empty(ev, merged@, st2 as int, hi as int);
        lemma_support_empty(ev, f0_2@, st2 as int, hi as int);
    }
    if score2.less(score1) {
        overlay(merged, f0_2, ed1, ed2);
    } else {
        overlay(merged, f0_2, st2, ed2);
    }
    ed2
}

proof fn lemma_support_empty<T: Scalar>(ev: Evidence<T>, contour: Seq<T>, lo: int, hi: int)
    ensures
        hi <= lo ==> ev.support(contour, lo, hi) == ev.support(contour, lo, lo),
{
}

/// The merged contour and the boundaries after the first `i` sections in
/// `order`. The first two boundaries are those of the section being merged
/// into: a section that starts behind it starts a new one, any other is joined.
pub open spec fn merged_upto<T: Scalar>(
    rows: Seq<Seq<T>>,
    b: Seq<usize>,
    order: Seq<usize>,
    evidence: Evidence<T>,
    i: int,
) -> (Seq<T>, Seq<usize>)
    decreases i,
{
    if i <= 1 {
        (rows[0], b)
    } else {
        let (m, c) = merged_upto(rows, b, order, evidence, i - 1);
        let x = order[i - 1] as int;
        let st = c[2 * x];
        let ed = c[2 * x + 1];
        if st > c[1] {
            (overlaid(m, rows[x], st as int, ed as int), c.update(0, st).update(1, ed))
        } else {
            let (n, end) = joined(
                m,
                c[0] as int,
                c[1] as int,
                rows[x],
                st as int,
                ed as int,
                evidence,
            );
            (n, c.update(1, end as usize))
        }
    }
}

/// The first `number` sections merged into one contour.
pub open spec fn merged<T: Scalar>(
    rows: Seq<Seq<T>>,
    b: Seq<usize>,
    number: nat,
    evidence: Evidence<T>,
) -> Seq<T> {
    merged_upto(rows, b, sorted_order(b, number as int), evidence, number as int).0
}

/// There is a first contour, and it and the first `number` contours have `length`
/// frames each and, as far as they are numbered, two boundaries each.
pub open spec fn mergeable<T>(
    rows: Seq<Seq<T>>,
    b: Seq<usize>,
    number: nat,
    length: nat,
) -> bool {
    &&& 0 < rows.len()
    &&& number <= rows.len()
    &&& 2 * number <= b.len()
    &&& forall|i: int|
        0 <= i < rows.len() && (i == 0 || i < number) ==> (#[trigger] rows[i]).len() == length
}

proof fn lemma_merged_shape<T: Scalar>(
    rows: Seq<Seq<T>>,
    b: Seq<usize>,
    number: nat,
    evidence: Evidence<T>,
    length: nat,
    i: int,
)
    requires
        mergeable(rows, b, number, length),
        number <= usize::MAX,
        0 <= i <= number,
    ensures
        merged_upto(rows, b, sorted_order(b, number as int), evidence, i).0.len() == length,
        merged_upto(rows, b, sorted_order(b, number as int), evidence, i).1.len() == b.len(),
    decreases i,
{
    if i > 1 {
        lemma_merged_shape(rows, b, number, evidence, length, i - 1);
        law_sorted_order(b, number as int);
    }
}

/// Whether frame `p` of `m` comes from the first contour or one of the first
/// `number`.
pub open spec fn taken_from<T>(m: Seq<T>, rows: Seq<Seq<T>>, number: int, p: int) -> bool {
    exists|k: int| 0 <= k && (k == 0 || k < number) && m[p] == #[trigger] rows[k][p]
}

/// Law: merging mixes no values: every frame of the merged contour is that frame
/// of one of the contours.
pub proof fn law_merging_takes_frames<T: Scalar>(
    rows: Seq<Seq<T>>,
    b: Seq<usize>,
    number: nat,
    evidence: Evidence<T>,
    length: nat,
    i: int,
    p: int,
)
    requires
        mergeable(rows, b, number, length),
        number <= usize::MAX,
        0 <= i <= number,
        0 <= p < length,
    ensures
        taken_from(
            merged_upto(rows, b, sorted_order(b, number as int), evidence, i).0,
            rows,
            number as int,
            p,
        ),
    decreases i,
{
    let order = sorted_order(b, number as int);
    let now = merged_upto(rows, b, order, evidence, i).0;
    lemma_merged_shape(rows, b, number, evidence, length, i);
    if i <= 1 {
        assert(now[p] == rows[0][p]);
    } else {
        law_merging_takes_frames(rows, b, number, evidence, length, i - 1, p);
        lemma_merged_shape(rows, b, number, evidence, length, i - 1);
        law_sorted_order(b, number as int);
        let (m, c) = merged_upto(rows, b, order, evidence, i - 1);
        let x = order[i - 1] as int;
        assert(0 <= x < number);
        if now[p] == m[p] {
            let k = choose|k: int|
                0 <= k && (k == 0 || k < number) && m[p] == #[trigger] rows[k][p];
            assert(now[p] == rows[k][p]);
        } else {
            assert(now[p] == rows[x][p]);
        }
    }
}

/// The first frame of section `k`.
pub open spec fn first_frame(b: Seq<usize>, k: int) -> int {
    b[2 * k] as int
}

/// The last frame of section `k`.
pub open spec fn last_frame(b: Seq<usize>, k: int) -> int {
    b[2 * k + 1] as int
}

/// The first `number` sections are whole, and none starts before the first of them.
pub open spec fn led_by_first(b: Seq<usize>, number: nat) -> bool {
    forall|k: int|
        0 <= k < number ==> first_frame(b, k) <= #[trigger] last_frame(b, k) && first_frame(b, 0)
            <= first_frame(b, k)
}

/// Whether frame `p` of `m` comes from one of the first `i` sections in `order`, and
/// one that holds the frame.
spec fn drawn<T>(
    rows: Seq<Seq<T>>,
    b: Seq<usize>,
    order: Seq<usize>,
    m: Seq<T>,
    i: int,
    p: int,
) -> bool {
    exists|s: int|
        0 <= s < i && first_frame(b, order[s] as int) <= p <= last_frame(b, order[s] as int) && m[p]
            == #[trigger] rows[order[s] as int][p]
}

/// Whether one of the first `i` sections in `order` holds frame `p`.
spec fn held_by_some(b: Seq<usize>, order: Seq<usize>, i: int, p: int) -> bool {
    exists|s: int|
        0 <= s < i && first_frame(b, #[trigger] order[s] as int) <= p <= last_frame(
            b,
            order[s] as int,
        )
}

/// What holds after the first `i` sections in `order`.
spec fn merged_soundly<T>(
    rows: Seq<Seq<T>>,
    b: Seq<usize>,
    order: Seq<usize>,
    m: Seq<T>,
    c: Seq<usize>,
    i: int,
) -> bool {
    &&& m.len() == rows[0].len()
    &&& c.len() == b.len()
    &&& forall|k: int| 2 <= k < b.len() ==> #[trigger] c[k] == b[k]
    &&& exists|s: int| 0 <= s < i && c[0] == first_frame(b, #[trigger] order[s] as int)
    &&& exists|s: int| 0 <= s < i && c[1] == last_frame(b, #[trigger] order[s] as int)
    &&& forall|s: int| 0 <= s < i ==> last_frame(b, #[trigger] order[s] as int) <= c[1]
    &&& forall|p: int| c[0] <= p <= c[1] ==> #[trigger] held_by_some(b, order, i, p)
    &&& forall|p: int|
        0 <= p < m.len() && #[trigger] held_by_some(b, order, i, p) ==> drawn(
            rows,
            b,
            order,
            m,
            i,
            p,
        )
    &&& forall|p: int|
        0 <= p < m.len() && !held_by_some(b, order, i, p) ==> #[trigger] m[p] == rows[0][p]
}

proof fn lemma_merged_soundly<T: Scalar>(
    rows: Seq<Seq<T>>,
    b: Seq<usize>,
    number: nat,
    ev: Evidence<T>,
    length: nat,
    i: int,
)
    requires
        mergeable(rows, b, number, length),
        number <= usize::MAX,
        led_by_first(b, number),
        1 <= i <= number,
    ensures
        ({
            let order = sorted_order(b, number as int);
            let (m, c) = merged_upto(rows, b, order, ev, i);
            merged_soundly(rows, b, order, m, c, i)
        }),
    decreases i,
{
    let order = sorted_order(b, number as int);
    law_sorted_order(b, number as int);
    let origin: int = 0;
    assert(order.contains(origin as usize));
    let z = choose|z: int| 0 <= z < order.len() && order[z] == 0usize;
    if z > 0 {
        assert(comes_before(b, order[0] as int, order[z] as int));
        assert(first_frame(b, order[0] as int) <= last_frame(b, order[0] as int));
        assert(false);
    }
    assert(order[0] == 0);
    let (m, c) = merged_upto(rows, b, order, ev, i);
    if i == 1 {
        assert(first_frame(b, order[0] as int) == b[0] && last_frame(b, order[0] as int) == b[1]);
        assert forall|p: int| c[0] <= p <= c[1] implies #[trigger] held_by_some(
            b,
            order,
            1,
            p,
        ) by {
            assert(first_frame(b, order[0] as int) <= p);
        }
        assert forall|p: int| 0 <= p < m.len() implies (#[trigger] held_by_some(b, order, 1, p)
            ==> drawn(rows, b, order, m, 1, p)) && (!held_by_some(b, order, 1, p) ==> m[p]
            == rows[0][p]) by {
            if held_by_some(b, order, 1, p) {
                assert(m[p] == rows[order[0] as int][p]);
            }
        }
    } else {
        lemma_merged_soundly(rows, b, number, ev, length, i - 1);
        lemma_merged_shape(rows, b, number, ev, length, i - 1);
        lemma_merged_shape(rows, b, number, ev, length, i);
        let (m0, c0) = merged_upto(rows, b, order, ev, i - 1);
        let x = order[i - 1] as int;
        assert(0 < x < number) by {
            assert(order[0] != order[i - 1]);
        }
        assert(rows[x].len() == length && rows[0].len() == length);
        let st = first_frame(b, x);
        let ed = last_frame(b, x);
        assert(st <= ed);
        assert(c0[2 * x] == st && c0[2 * x + 1] == ed);
        let s0 = choose|s: int| 0 <= s < i - 1 && c0[0] == first_frame(b, #[trigger] order[s] as int);
        let s1 = choose|s: int| 0 <= s < i - 1 && c0[1] == last_frame(b, #[trigger] order[s] as int);
        assert(comes_before(b, order[s0] as int, order[i - 1] as int));
        assert(c0[0] <= st);
        assert(m.len() == length);
        assert(c[1] == if ed > c0[1] { ed } else { c0[1] as int });
        assert(forall|k: int| 2 <= k < b.len() ==> #[trigger] c[k] == c0[k]);
        if c[1] == ed {
            assert(c[1] == last_frame(b, order[i - 1] as int));
        } else {
            assert(c[1] == last_frame(b, order[s1] as int));
        }
        if st > c0[1] {
            assert(c[0] == first_frame(b, order[i - 1] as int));
        } else {
            assert(c[0] == first_frame(b, order[s0] as int));
        }
        assert forall|s: int| 0 <= s < i implies last_frame(b, #[trigger] order[s] as int)
            <= c[1] by {}
        assert forall|p: int| c[0] <= p <= c[1] implies #[trigger] held_by_some(
            b,
            order,
            i,
            p,
        ) by {
            if st <= p <= ed {
                assert(first_frame(b, order[i - 1] as int) <= p);
            } else {
                assert(held_by_some(b, order, i - 1, p));
                let s = choose|s: int|
                    0 <= s < i - 1 && first_frame(b, #[trigger] order[s] as int) <= p
                        <= last_frame(b, order[s] as int);
                assert(first_frame(b, order[s] as int) <= p);
            }
        }
        assert forall|p: int| 0 <= p < m.len() implies (#[trigger] held_by_some(b, order, i, p)
            ==> drawn(rows, b, order, m, i, p)) && (!held_by_some(b, order, i, p) ==> m[p]
            == rows[0][p]) by {
            assert(m0.len() == m.len());
            assert(m[p] == m0[p] || (m[p] == rows[x][p] && st <= p <= ed));
            assert(p > c0[1] && st <= p <= ed ==> m[p] == rows[x][p]);
            if st <= p <= ed && m[p] == rows[x][p] {
                assert(m[p] == rows[order[i - 1] as int][p]);
                assert(drawn(rows, b, order, m, i, p));
                assert(first_frame(b, order[i - 1] as int) <= p);
                assert(held_by_some(b, order, i, p));
            } else {
                assert(m[p] == m0[p]);
                if held_by_some(b, order, i - 1, p) {
                    assert(drawn(rows, b, order, m0, i - 1, p));
                    let s = choose|s: int|
                        0 <= s < i - 1 && first_frame(b, order[s] as int) <= p <= last_frame(
                            b,
                            order[s] as int,
                        ) && m0[p] == #[trigger] rows[order[s] as int][p];
                    assert(m[p] == rows[order[s] as int][p]);
                    assert(drawn(rows, b, order, m, i, p));
                } else {
                    assert(m0[p] == rows[0][p]);
                    if held_by_some(b, order, i, p) {
                        let s = choose|s: int|
                            0 <= s < i && first_frame(b, #[trigger] order[s] as int) <= p
                                <= last_frame(b, order[s] as int);
                        assert(s == i - 1);
                        assert(c0[0] <= p <= c0[1]);
                        assert(held_by_some(b, order, i - 1, p));
                    }
                }
            }
        }
    }
}

/// Whether frame `p` of `m` comes from one of the first `number` contours whose section
/// holds the frame.
pub open spec fn comes_from_holder<T>(
    m: Seq<T>,
    rows: Seq<Seq<T>>,
    b: Seq<usize>,
    number: nat,
    p: int,
) -> bool {
    exists|k: int|
        0 <= k < number && first_frame(b, k) <= p <= last_frame(b, k) && m[p]
            == #[trigger] rows[k][p]
}

/// Law: merging loses no section. Where none of the first `number` sections starts
/// before the first, every frame of each of them comes from a section that holds it,
/// every frame that none of them holds comes from the first contour, and the section
/// last merged into ends where the last of them ends.
pub proof fn law_merging_loses_no_section<T: Scalar>(
    rows: Seq<Seq<T>>,
    b: Seq<usize>,
    number: nat,
    evidence: Evidence<T>,
    length: nat,
    k: int,
    p: int,
)
    requires
        mergeable(rows, b, number, length),
        number <= usize::MAX,
        led_by_first(b, number),
        0 <= k < number,
        0 <= p < length,
    ensures
        ({
            let order = sorted_order(b, number as int);
            let (m, c) = merged_upto(rows, b, order, evidence, number as int);
            &&& m == merged(rows, b, number, evidence)
            &&& first_frame(b, k) <= p <= last_frame(b, k) ==> comes_from_holder(
                m,
                rows,
                b,
                number,
                p,
            )
            &&& (forall|j: int|
                0 <= j < number ==> !(first_frame(b, j) <= p <= #[trigger] last_frame(b, j)))
                ==> m[p] == rows[0][p]
            &&& last_frame(b, k) <= c[1]
            &&& exists|j: int| 0 <= j < number && c[1] == #[trigger] last_frame(b, j)
        }),
{
    let order = sorted_order(b, number as int);
    let n = number as int;
    law_sorted_order(b, n);
    lemma_merged_soundly(rows, b, number, evidence, length, n);
    let (m, c) = merged_upto(rows, b, order, evidence, n);
    assert(order.contains(k as usize));
    let s = choose|s: int| 0 <= s < order.len() && order[s] == k as usize;
    assert(last_frame(b, order[s] as int) <= c[1]);
    let e = choose|e: int| 0 <= e < n && c[1] == last_frame(b, #[trigger] order[e] as int);
    assert(c[1] == last_frame(b, order[e] as int));
    if first_frame(b, k) <= p <= last_frame(b, k) {
        assert(first_frame(b, order[s] as int) <= p);
        assert(held_by_some(b, order, n, p));
        assert(drawn(rows, b, order, m, n, p));
        let t = choose|t: int|
            0 <= t < n && first_frame(b, order[t] as int) <= p <= last_frame(b, order[t] as int)
                && m[p] == #[trigger] rows[order[t] as int][p];
        assert(m[p] == rows[order[t] as int][p]);
    }
    if forall|j: int|
        0 <= j < number ==> !(first_frame(b, j) <= p <= #[trigger] last_frame(b, j)) {
        if held_by_some(b, order, n, p) {
            let t = choose|t: int|
                0 <= t < n && first_frame(b, #[trigger] order[t] as int) <= p <= last_frame(
                    b,
                    order[t] as int,
                );
            assert(last_frame(b, order[t] as int) >= p);
        }
    }
}

/// Law: where a section reaches beyond the one merged into, the result ends where it
/// ends, keeps the frames before it and takes all frames from the old end on from it;
/// the frames of the overlap before that stay where the merged contour has the greater
/// support there, and come from the new section where it has not.
pub proof fn law_overlap_goes_to_the_greater_support<T: Scalar>(
    merged: Seq<T>,
    st1: int,
    ed1: int,
    other: Seq<T>,
    st2: int,
    ed2: int,
    evidence: Evidence<T>,
    p: int,
)
    requires
        0 <= st1 <= st2 <= ed1 < ed2 < merged.len(),
        merged.len() == other.len(),
        0 <= p < merged.len(),
    ensures
        ({
            let (m, end) = joined(merged, st1, ed1, other, st2, ed2, evidence);
            let stays = evidence.support(other, st2, ed1 + 1) < evidence.support(
                merged,
                st2,
                ed1 + 1,
            );
            &&& end == ed2
            &&& m.len() == merged.len()
            &&& p < st2 || ed2 < p ==> m[p] == merged[p]
            &&& ed1 <= p <= ed2 ==> m[p] == other[p]
            &&& st2 <= p < ed1 ==> m[p] == if stays { merged[p] } else { other[p] }
        }),
{
}

/// Law: a section that lies within the one merged into changes nothing.
pub proof fn law_section_within_another_changes_nothing<T: Scalar>(
    merged: Seq<T>,
    st1: int,
    ed1: int,
    other: Seq<T>,
    st2: int,
    ed2: int,
    evidence: Evidence<T>,
)
    requires
        st1 <= st2 <= ed2 <= ed1,
    ensures
        joined(merged, st1, ed1, other, st2, ed2, evidence) == (merged, ed1),
{
}

/// Law: two sections of which the second starts in the first and ends behind it are
/// merged by their support: the frames before the second and behind the first are
/// their own, and those of the overlap, but for its last, belong to the first where it
/// has the greater support there, else to the second.
pub proof fn law_two_sections_are_merged_by_support<T: Scalar>(
    rows: Seq<Seq<T>>,
    b: Seq<usize>,
    evidence: Evidence<T>,
    length: nat,
    p: int,
)
    requires
        mergeable(rows, b, 2, length),
        b[0] <= b[2] <= b[1] < b[3] < length,
        0 <= p < length,
    ensures
        ({
            let m = merged(rows, b, 2, evidence);
            let (st, last) = (b[2] as int, b[1] as int);
            let stays = evidence.support(rows[1], st, last + 1) < evidence.support(
                rows[0],
                st,
                last + 1,
            );
            m[p] == if p < st || b[3] < p || (p < last && stays) {
                rows[0][p]
            } else {
                rows[1][p]
            }
        }),
{
    let order = sorted_order(b, 2);
    law_sorted_order(b, 2);
    let (one, two) = (0int, 1int);
    assert(order.contains(one as usize) && order.contains(two as usize));
    if order[0] == 1 {
        assert(order[1] == 0);
        assert(comes_before(b, order[0] as int, order[1] as int));
        assert(false);
    }
    assert(order[0] == 0 && order[1] == 1);
    assert(merged_upto(rows, b, order, evidence, 1) == (rows[0], b));
    law_overlap_goes_to_the_greater_support(
        rows[0],
        b[0] as int,
        b[1] as int,
        rows[1],
        b[2] as int,
        b[3] as int,
        evidence,
        p,
    );
}

/// Law: the score of a frequency is that of a candidate equal to it, and no candidate
/// equal to it scores higher; it is zero where none scores above zero.
pub proof fn law_score_is_the_greatest<T: Scalar>(
    f0: T,
    candidates: Seq<T>,
    scores: Seq<T>,
    n: int,
) -> (i: int)
    requires
        totally_ordered::<T>(),
        0 <= n <= scores.len(),
        !zero::<T>().undefined(),
        forall|j: int| 0 <= j < n ==> !(#[trigger] scores[j]).undefined(),
    ensures
        ({
            let s = score_of(f0, candidates, scores, n);
            &&& forall|j: int|
                0 <= j < n && f0.equals(candidates[j]) ==> #[trigger] scores[j] <= s
            &&& if i < 0 {
                s == zero::<T>()
            } else {
                &&& i < n
                &&& f0.equals(candidates[i])
                &&& s == scores[i]
                &&& zero::<T>() < s
            }
        }),
    decreases n,
{
    if n == 0 {
        -1
    } else {
        let i = law_score_is_the_greatest(f0, candidates, scores, n - 1);
        let so_far = score_of(f0, candidates, scores, n - 1);
        let last = scores[n - 1];
        if f0.equals(candidates[n - 1]) && so_far < last {
            assert(so_far <= last);
            assert(last <= last);
            if i >= 0 && last <= zero::<T>() {
                assert(so_far <= zero::<T>());
            }
            assert forall|j: int| 0 <= j < n && f0.equals(candidates[j]) implies #[trigger] scores[j]
                <= last by {
                if j < n - 1 {
                    assert(scores[j] <= so_far);
                }
            }
            n - 1
        } else {
            if f0.equals(candidates[n - 1]) {
                assert(last <= so_far);
            }
            i
        }
    }
}

/// Law: the support of a contour over some frames is that over the first of them and
/// that over the rest, and over one frame it is the score of its frequency there; read
/// exactly.
pub proof fn law_support_adds_up<T: Scalar>(
    evidence: Evidence<T>,
    contour: Seq<T>,
    lo: int,
    mid: int,
    hi: int,
    value: spec_fn(T) -> real,
)
    requires
        exact(value),
        lo <= mid <= hi,
    ensures
        value(evidence.support(contour, lo, hi)) == value(evidence.support(contour, lo, mid)) + value(
            evidence.support(contour, mid, hi),
        ),
        value(evidence.support(contour, lo, lo + 1)) == value(
            score_of(
                contour[lo],
                evidence.candidates[lo],
                evidence.scores[lo],
                evidence.number as int,
            ),
        ),
    decreases hi - mid,
{
    assert(evidence.support(contour, lo, lo) == zero::<T>());
    if mid < hi {
        law_support_adds_up(evidence, contour, lo, mid, hi - 1, value);
    } else {
        assert(evidence.support(contour, mid, hi) == zero::<T>());
    }
}

/// Merges the first `number_of_channels` contours. The first two entries of
/// `boundary_list` become the boundaries of the last section merged.
pub fn merge_f0<T: Scalar>(
    multi_channel_f0: &Vec<Vec<T>>,
    boundary_list: &mut Vec<usize>,
    number_of_channels: usize,
    f0_length: usize,
    f0_candidates: &Vec<Vec<T>>,
    f0_scores: &Vec<Vec<T>>,
    number_of_candidates: usize,
) -> (merged_f0: Vec<T>)
    requires
        mergeable(
            grid(multi_channel_f0@),
            old(boundary_list)@,
            number_of_channels as nat,
            f0_length as nat,
        ),
        forall|c: int|
            0 <= c < 2 * number_of_channels ==> #[trigger] old(boundary_list)@[c] <= i32::MAX,
        evidence(f0_candidates@, f0_scores@, number_of_candidates).covers(f0_length as nat),
    ensures
        (merged_f0@, final(boundary_list)@) == merged_upto(
            grid(multi_channel_f0@),
            old(boundary_list)@,
            sorted_order(old(boundary_list)@, number_of_channels as int),
            evidence(f0_candidates@, f0_scores@, number_of_candidates),
            number_of_channels as int,
        ),
{
    let ghost rows = grid(multi_channel_f0@);
    let ghost b = boundary_list@;
    let ghost n = number_of_channels as int;
    let ghost ev = evidence(f0_candidates@, f0_scores@, number_of_candidates);
    let number_of_boundaries: usize = boundary_list.len();
    let order: Vec<usize> = make_sorted_order(boundary_list, number_of_channels);
    proof {
        law_sorted_order(b, n);
    }
    assert(rows[0] == multi_channel_f0@[0]@);
    let mut merged_f0: Vec<T> = copied(multi_channel_f0[0].as_slice());
    if number_of_channels < 2 {
        return merged_f0;
    }
    for i in 1..number_of_channels
        invariant
            rows == grid(multi_channel_f0@),
            mergeable(rows, b, n as nat, f0_length as nat),
            n == number_of_channels,
            ev == evidence(f0_candidates@, f0_scores@, number_of_candidates),
            ev.covers(f0_length as nat),
            number_of_boundaries == b.len() == boundary_list@.len(),
            order@ == sorted_order(b, n),
            order@.len() == n,
            forall|k: int| 0 <= k < n ==> 0 <= #[trigger] order@[k] < n,
            (merged_f0@, boundary_list@) == merged_upto(rows, b, order@, ev, i as int),
    {
        proof {
            lemma_merged_shape(rows, b, n as nat, ev, f0_length as nat, i as int);
            lemma_merged_shape(rows, b, n as nat, ev, f0_length as nat, i + 1);
        }
        let x: usize = order[i];
        assert(rows[x as int] == multi_channel_f0@[x as int]@);
        assert(rows[x as int].len() == f0_length);
        let st: usize = boundary_list[x * 2];
        let ed: usize = boundary_list[x * 2 + 1];
        if st > boundary_list[1] {
            overlay(&mut merged_f0, multi_channel_f0[x].as_slice(), st, ed);
            boundary_list[0] = st;
            boundary_list[1] = ed;
        } else {
            let new_end: usize = merge_f0_sub(
                &mut merged_f0,
                boundary_list[0],
                boundary_list[1],
                multi_channel_f0[x].as_slice(),
                st,
                ed,
                f0_candidates,
                f0_scores,
                number_of_candidates,
            );
            boundary_list[1] = new_end;
        }
    }
    merged_f0
}

/// `f0` with its voiced sections grown, selected and merged; `f0` itself where
/// no section is long enough.
pub open spec fn regrown<T: Scalar>(f0: Seq<T>, offer: Offer<T>, evidence: Evidence<T>) -> Seq<T> {
    let b = boundaries(f0);
    let s = extended(channels(f0, b), b, offer);
    if s.count == 0 {
        f0
    } else {
        merged(s.rows, s.bounds, s.count, evidence)
    }
}

proof fn lemma_channels_fit<T: Scalar>(f0: Seq<T>)
    requires
        f0.len() <= usize::MAX,
    ensures
        sections_fit(channels(f0, boundaries(f0)), boundaries(f0), f0.len()),
{
    law_boundaries_list_sections(f0);
}

/// Law: regrowing keeps the length of a contour.
pub proof fn law_regrown_length<T: Scalar>(f0: Seq<T>, offer: Offer<T>, evidence: Evidence<T>)
    requires
        f0.len() <= usize::MAX,
    ensures
        regrown(f0, offer, evidence).len() == f0.len(),
{
    let b = boundaries(f0);
    lemma_channels_fit(f0);
    law_boundaries_list_sections(f0);
    law_extension_stays_in_bounds(channels(f0, b), b, offer, f0.len());
    let s = extended(channels(f0, b), b, offer);
    if s.count > 0 {
        lemma_merged_shape(s.rows, s.bounds, s.count, evidence, f0.len(), s.count as int);
    }
}

/// Grows the voiced sections along the candidates and merges those that are long
/// enough; the contour stays as it is where none is.
pub fn fix_step3<T: Scalar>(
    f0_step2: &[T],
    number_of_candidates: usize,
    f0_candidates: &Vec<Vec<T>>,
    allowed_range: T,
    f0_scores: &Vec<Vec<T>>,
) -> (out: Vec<T>)
    requires
        f0_step2@.len() < i32::MAX - 100,
        evidence(f0_candidates@, f0_scores@, number_of_candidates).covers(f0_step2@.len()),
    ensures
        out@ == regrown(
            f0_step2@,
            offered(f0_candidates@, number_of_candidates, allowed_range),
            evidence(f0_candidates@, f0_scores@, number_of_candidates),
        ),
{
    let ghost ev = evidence(f0_candidates@, f0_scores@, number_of_candidates);
    let ghost offer = offered(f0_candidates@, number_of_candidates, allowed_range);
    let ghost f = f0_step2@;
    let f0_length: usize = f0_step2.len();
    let mut boundary_list: Vec<usize> = get_boundary_list(f0_step2);
    let mut multi_channel_f0: Vec<Vec<T>> = get_multi_channel_f0(f0_step2, &boundary_list);
    let ghost b = boundary_list@;
    let ghost rows = grid(multi_channel_f0@);
    proof {
        lemma_channels_fit(f);
        law_boundaries_list_sections(f);
        assert(offer.covers(f.len())) by {
            assert(offer.candidates == ev.candidates);
        }
        law_extension_stays_in_bounds(rows, b, offer, f.len());
    }
    let number_of_channels: usize = if multi_channel_f0.len() == 0 {
        0
    } else {
        extend(
            &mut multi_channel_f0,
            &mut boundary_list,
            f0_length,
            f0_candidates,
            number_of_candidates,
            allowed_range,
        )
    };
    if number_of_channels == 0 {
        return copied(f0_step2);
    }
    merge_f0(
        &multi_channel_f0,
        &mut boundary_list,
        number_of_channels,
        f0_length,
        f0_candidates,
        f0_scores,
        number_of_candidates,
    )
}

/// The contour found among the candidates of `length` frames.
pub open spec fn fixed_contour<T: Scalar>(
    candidates: Seq<Seq<T>>,
    scores: Seq<Seq<T>>,
    length: nat,
    number: nat,
) -> Seq<T> {
    let base = base_contour(candidates, scores, length, number);
    let steady = without_jumps(base, T::of_decimal(8, 3));
    let sustained = without_short_sections(steady, 6);
    let whole = regrown(
        sustained,
        Offer { candidates, number, allowed: T::of_decimal(18, 2) },
        Evidence { candidates, scores, number },
    );
    with_gaps_bridged(whole, 9)
}

/// Law: the contour found has one frequency for each frame.
pub proof fn law_fixed_contour_length<T: Scalar>(
    candidates: Seq<Seq<T>>,
    scores: Seq<Seq<T>>,
    length: nat,
    number: nat,
)
    requires
        length <= usize::MAX,
    ensures
        fixed_contour(candidates, scores, length, number).len() == length,
{
    let base = base_contour(candidates, scores, length, number);
    let sustained = without_short_sections(without_jumps(base, T::of_decimal(8, 3)), 6);
    law_regrown_length(
        sustained,
        Offer { candidates, number, allowed: T::of_decimal(18, 2) },
        Evidence { candidates, scores, number },
    );
}

/// Finds the contour among the candidates.
pub fn fix_f0_contour<T: Scalar>(
    f0_candidates: &Vec<Vec<T>>,
    f0_scores: &Vec<Vec<T>>,
    f0_length: usize,
    number_of_candidates: usize,
) -> (best_f0_contour: Vec<T>)
    requires
        f0_length < i32::MAX - 100,
        evidence(f0_candidates@, f0_scores@, number_of_candidates).covers(f0_length as nat),
    ensures
        best_f0_contour@ == fixed_contour(
            grid(f0_candidates@),
            grid(f0_scores@),
            f0_length as nat,
            number_of_candidates as nat,
        ),
        best_f0_contour@.len() == f0_length,
{
    let ghost ev = evidence(f0_candidates@, f0_scores@, number_of_candidates);
    assert forall|i: int| 0 <= i < f0_length implies number_of_candidates
        <= (#[trigger] f0_candidates@[i])@.len() by {
        assert(ev.candidates[i] == f0_candidates@[i]@);
    }
    assert forall|i: int| 0 <= i < f0_length implies number_of_candidates
        <= (#[trigger] f0_scores@[i])@.len() by {
        assert(ev.scores[i] == f0_scores@[i]@);
    }
    let base: Vec<T> = search_f0_base(f0_candidates, f0_scores, f0_length, number_of_candidates);
    let steady: Vec<T> = fix_step1(&base, T::from_decimal(8, 3));
    let sustained: Vec<T> = fix_step2(&steady, 6);
    let allowed: T = T::from_decimal(18, 2);
    proof {
        law_regrown_length(
            sustained@,
            offered(f0_candidates@, number_of_candidates, allowed),
            ev,
        );
    }
    let whole: Vec<T> = fix_step3(
        &sustained,
        number_of_candidates,
        f0_candidates,
        allowed,
        f0_scores,
    );
    fix_step4(&whole, 9)
}

} // verus!
