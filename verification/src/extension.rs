//! Growth of voiced sections into their neighbourhood, and choice of the
//! sections that are long enough to keep.
use crate::basics::{grid, my_abs_i, my_max_i, my_min_i, nought, zero};
use crate::contour::{best, select_best_f0};
use crate::scalar::Scalar;
use vstd::prelude::*;
use vstd::slice::slice_subrange;

verus! {

/// The way in which a section grows.
#[derive(Clone, Copy, Debug, PartialEq, Eq)]
pub enum Direction {
    Forward,
    Backward,
}

impl Direction {
    /// The distance from one frame to the next one visited.
    pub open spec fn step(self) -> int {
        match self {
            Direction::Forward => 1,
            Direction::Backward => -1,
        }
    }

    fn shift(self) -> (r: i32)
        ensures
            r == self.step(),
    {
        match self {
            Direction::Forward => 1,
            Direction::Backward => -1,
        }
    }
}

/// The number of frames without a matching candidate after which growth stops.
pub open spec fn patience() -> nat {
    4
}

/// What the candidates of all frames offer: the first `number` of each row, as
/// far as they lie within `allowed` of the frequency they follow.
pub struct Offer<T> {
    pub candidates: Seq<Seq<T>>,
    pub number: nat,
    pub allowed: T,
}

impl<T: Scalar> Offer<T> {
    /// The frequency offered in frame `p` to a contour that stood at `reference`.
    pub open spec fn next(self, reference: T, p: int) -> T {
        best(reference, self.candidates[p].take(self.number as int), self.allowed).0
    }

    /// Every one of `length` frames has as many candidates as are offered.
    pub open spec fn covers(self, length: nat) -> bool {
        &&& length <= self.candidates.len()
        &&& forall|p: int| 0 <= p < length ==> self.number <= (#[trigger] self.candidates[p]).len()
    }
}

/// What a matrix of candidates offers.
pub open spec fn offered<T: Scalar>(candidates: Seq<Vec<T>>, number: usize, allowed: T) -> Offer<T> {
    Offer { candidates: grid(candidates), number: number as nat, allowed }
}

/// The contour and the last frame reached when growth goes on at frame `at` for
/// up to `moves` frames. `reference` is the last frequency that was found,
/// `reached` its frame, and `misses` counts the frames since.
pub open spec fn grown<T: Scalar>(
    f0: Seq<T>,
    offer: Offer<T>,
    step: int,
    at: int,
    moves: nat,
    reference: T,
    reached: int,
    misses: nat,
) -> (Seq<T>, int)
    decreases moves,
{
    if moves == 0 || at <= 0 || at >= f0.len() {
        (f0, reached)
    } else {
        let found = offer.next(reference, at);
        let next = f0.update(at, found);
        if !found.equals(zero::<T>()) {
            grown(next, offer, step, at + step, (moves - 1) as nat, found, at, 0)
        } else if misses + 1 == patience() {
            (next, reached)
        } else {
            grown(
                next,
                offer,
                step,
                at + step,
                (moves - 1) as nat,
                reference,
                reached,
                misses + 1,
            )
        }
    }
}

/// The contour grown from frame `origin` towards `last_point` and one frame
/// beyond, and the last frame reached.
pub open spec fn grown_from<T: Scalar>(
    f0: Seq<T>,
    offer: Offer<T>,
    direction: Direction,
    origin: int,
    last_point: int,
) -> (Seq<T>, int) {
    let distance = if last_point > origin { last_point - origin } else { origin - last_point };
    grown(
        f0,
        offer,
        direction.step(),
        origin + direction.step(),
        (distance + 1) as nat,
        f0[origin],
        origin,
        0,
    )
}

/// Whether growth over `moves` frames from frame `at` may visit frame `p`.
pub open spec fn on_the_way(step: int, at: int, moves: nat, p: int) -> bool {
    if step == 1 {
        at <= p < at + moves
    } else {
        at - moves < p <= at
    }
}

proof fn lemma_growth_is_local<T: Scalar>(
    f0: Seq<T>,
    offer: Offer<T>,
    step: int,
    at: int,
    moves: nat,
    reference: T,
    reached: int,
    misses: nat,
)
    requires
        step == 1 || step == -1,
    ensures
        ({
            let (f, r) = grown(f0, offer, step, at, moves, reference, reached, misses);
            &&& f.len() == f0.len()
            &&& r == reached || (0 < r < f0.len() && on_the_way(step, at, moves, r))
            &&& forall|p: int|
                0 <= p < f0.len() && (p == 0 || !on_the_way(step, at, moves, p)) ==> #[trigger] f[p]
                    == f0[p]
        }),
    decreases moves,
{
    if moves == 0 || at <= 0 || at >= f0.len() {
    } else {
        let found = offer.next(reference, at);
        let next = f0.update(at, found);
        if !found.equals(zero::<T>()) {
            lemma_growth_is_local(next, offer, step, at + step, (moves - 1) as nat, found, at, 0);
        } else if misses + 1 == patience() {
        } else {
            lemma_growth_is_local(
                next,
                offer,
                step,
                at + step,
                (moves - 1) as nat,
                reference,
                reached,
                misses + 1,
            );
        }
    }
}

/// Law: growth changes only frames beyond its origin, none farther than one
/// past the last point and never the first frame of the contour, and it reaches
/// its origin or a frame that it may change.
pub proof fn law_growth_is_local<T: Scalar>(
    f0: Seq<T>,
    offer: Offer<T>,
    direction: Direction,
    origin: int,
    last_point: int,
)
    ensures
        ({
            let (f, r) = grown_from(f0, offer, direction, origin, last_point);
            let distance = if last_point > origin {
                last_point - origin
            } else {
                origin - last_point
            };
            let moves = (distance + 1) as nat;
            let step = direction.step();
            &&& f.len() == f0.len()
            &&& r == origin || (0 < r < f0.len() && on_the_way(step, origin + step, moves, r))
            &&& forall|p: int|
                0 <= p < f0.len() && (p == 0 || !on_the_way(step, origin + step, moves, p))
                    ==> #[trigger] f[p] == f0[p]
        }),
{
    let distance = if last_point > origin { last_point - origin } else { origin - last_point };
    lemma_growth_is_local(
        f0,
        offer,
        direction.step(),
        origin + direction.step(),
        (distance + 1) as nat,
        f0[origin],
        origin,
        0,
    );
}

/// Grows `extended_f0` from `origin` and returns the last frame reached.
pub fn extend_f0<T: Scalar>(
    extended_f0: &mut Vec<T>,
    origin: usize,
    last_point: usize,
    direction: Direction,
    f0_candidates: &Vec<Vec<T>>,
    number_of_candidates: usize,
    allowed_range: T,
) -> (shifted_origin: usize)
    requires
        origin < old(extended_f0)@.len() < i32::MAX,
        last_point < i32::MAX,
        offered(f0_candidates@, number_of_candidates, allowed_range).covers(
            old(extended_f0)@.len(),
        ),
    ensures
        (final(extended_f0)@, shifted_origin as int) == grown_from(
            old(extended_f0)@,
            offered(f0_candidates@, number_of_candidates, allowed_range),
            direction,
            origin as int,
            last_point as int,
        ),
        shifted_origin < old(extended_f0)@.len(),
        final(extended_f0)@.len() == old(extended_f0)@.len(),
{
    let ghost offer = offered(f0_candidates@, number_of_candidates, allowed_range);
    let ghost start = extended_f0@;
    let o: T = nought();
    let shift: i32 = direction.shift();
    let mut tmp_f0: T = extended_f0[origin];
    let mut shifted_origin: usize = origin;
    let distance: i32 = my_abs_i(last_point as i32 - origin as i32);
    let mut count: usize = 0;
    let mut i: i32 = 0;
    let mut idx: i32 = origin as i32 + shift;
    let ghost whole = grown_from(start, offer, direction, origin as int, last_point as int);
    while i <= distance
        invariant
            o == zero::<T>(),
            shift == direction.step(),
            shift == 1 || shift == -1,
            0 <= i <= distance + 1,
            0 <= distance < i32::MAX,
            -1 <= idx <= i32::MAX,
            extended_f0@.len() == start.len() < i32::MAX,
            shifted_origin < start.len(),
            count < patience(),
            start == old(extended_f0)@,
            offer.covers(start.len()),
            offer == offered(f0_candidates@, number_of_candidates, allowed_range),
            whole == grown_from(start, offer, direction, origin as int, last_point as int),
            whole == grown(
                extended_f0@,
                offer,
                shift as int,
                idx as int,
                (distance + 1 - i) as nat,
                tmp_f0,
                shifted_origin as int,
                count as nat,
            ),
        decreases distance + 1 - i,
    {
        if idx <= 0 || idx as usize >= extended_f0.len() {
            return shifted_origin;
        }
        let idxu: usize = idx as usize;
        assert(offer.candidates[idxu as int] == f0_candidates@[idxu as int]@);
        let best: T = select_best_f0(
            tmp_f0,
            slice_subrange(f0_candidates[idxu].as_slice(), 0, number_of_candidates),
            allowed_range,
        ).0;
        assert(best == offer.next(tmp_f0, idx as int)) by {
            assert(offer.candidates[idxu as int].subrange(0, number_of_candidates as int)
                == offer.candidates[idxu as int].take(offer.number as int));
        }
        extended_f0[idxu] = best;
        if best.same(o) {
            count = count + 1;
        } else {
            tmp_f0 = best;
            count = 0;
            shifted_origin = idxu;
        }
        if count == 4 {
            return shifted_origin;
        }
        i = i + 1;
        idx = idx + shift;
    }
    shifted_origin
}

/// `s` with the entries at `a` and `b` exchanged.
pub open spec fn exchanged<A>(s: Seq<A>, a: int, b: int) -> Seq<A> {
    s.update(a, s[b]).update(b, s[a])
}

/// A section's contour grown on both sides by up to about a hundred frames, and
/// the section's new first and last frame.
pub open spec fn widened<T: Scalar>(row: Seq<T>, offer: Offer<T>, st: int, ed: int) -> (
    Seq<T>,
    int,
    int,
) {
    let end = if row.len() - 2 < ed + 100 { row.len() - 2 } else { ed + 100 };
    let start = if st - 100 < 1 { 1 } else { st - 100 };
    let right = grown_from(row, offer, Direction::Forward, ed, end);
    let left = grown_from(right.0, offer, Direction::Backward, st, start);
    (left.0, left.1, right.1)
}

/// All contours, each grown from its section of `b`.
pub open spec fn widened_rows<T: Scalar>(
    rows: Seq<Seq<T>>,
    offer: Offer<T>,
    b: Seq<usize>,
) -> Seq<Seq<T>> {
    Seq::new(
        rows.len(),
        |i: int| widened(rows[i], offer, b[2 * i] as int, b[2 * i + 1] as int).0,
    )
}

/// The boundaries of the grown sections.
pub open spec fn widened_bounds<T: Scalar>(
    rows: Seq<Seq<T>>,
    offer: Offer<T>,
    b: Seq<usize>,
) -> Seq<usize> {
    Seq::new(
        b.len(),
        |c: int|
            {
                let w = widened(
                    rows[c / 2],
                    offer,
                    b[2 * (c / 2)] as int,
                    b[2 * (c / 2) + 1] as int,
                );
                if c % 2 == 0 {
                    w.1 as usize
                } else {
                    w.2 as usize
                }
            },
    )
}

/// `start` plus `row[lo]`, `row[lo + 1]`, ..., `row[hi - 1]`, added in this order.
pub open spec fn total<T: Scalar>(start: T, row: Seq<T>, lo: int, hi: int) -> T
    decreases hi - lo,
{
    if hi <= lo {
        start
    } else {
        total(start, row, lo, hi - 1) + row[hi - 1]
    }
}

/// Contours and boundaries after some sections were looked at: the first `count`
/// of them are kept, and `mean` is the mean frequency last computed.
pub struct Selection<T> {
    pub rows: Seq<Seq<T>>,
    pub bounds: Seq<usize>,
    pub count: nat,
    pub mean: T,
}

/// The mean after the section from `st` to `ed` of `row`. The sum starts from
/// the mean before it.
pub open spec fn running_mean<T: Scalar>(mean: T, row: Seq<T>, st: int, ed: int) -> T {
    let hi = if ed < row.len() { ed } else { row.len() as int };
    let sum = total(mean, row, st, hi);
    if ed > st {
        sum / T::of_int(ed - st)
    } else {
        sum
    }
}

/// Whether a section with this mean frequency is long enough: it spans more than
/// 2200 over the mean.
pub open spec fn long_enough<T: Scalar>(mean: T, st: int, ed: int) -> bool {
    zero::<T>() < mean && T::of_int(2200) / mean < T::of_int(ed) - T::of_int(st)
}

/// The selection after the first `i` sections. A section that is kept changes
/// places with the first one that is not.
pub open spec fn selected<T: Scalar>(rows: Seq<Seq<T>>, bounds: Seq<usize>, i: int) -> Selection<T>
    decreases i,
{
    if i <= 0 {
        Selection { rows, bounds, count: 0, mean: zero::<T>() }
    } else {
        let s = selected(rows, bounds, i - 1);
        let st = s.bounds[2 * (i - 1)] as int;
        let ed = s.bounds[2 * (i - 1) + 1] as int;
        let mean = running_mean(s.mean, s.rows[i - 1], st, ed);
        if long_enough(mean, st, ed) {
            let c = s.count as int;
            Selection {
                rows: exchanged(s.rows, c, i - 1),
                bounds: exchanged(
                    exchanged(s.bounds, 2 * c, 2 * (i - 1)),
                    2 * c + 1,
                    2 * (i - 1) + 1,
                ),
                count: s.count + 1,
                mean,
            }
        } else {
            Selection { mean, ..s }
        }
    }
}

/// The sections grown and selected.
pub open spec fn extended<T: Scalar>(
    rows: Seq<Seq<T>>,
    bounds: Seq<usize>,
    offer: Offer<T>,
) -> Selection<T> {
    selected(
        widened_rows(rows, offer, bounds),
        widened_bounds(rows, offer, bounds),
        rows.len() as int,
    )
}

fn exchange_rows<T: Scalar>(rows: &mut Vec<Vec<T>>, a: usize, b: usize)
    requires
        a < old(rows)@.len(),
        b < old(rows)@.len(),
    ensures
        grid(final(rows)@) == exchanged(grid(old(rows)@), a as int, b as int),
{
    let ghost before = rows@;
    if a != b {
        let mut t: Vec<T> = Vec::new();
        std::mem::swap(&mut t, &mut rows[a]);
        std::mem::swap(&mut t, &mut rows[b]);
        std::mem::swap(&mut t, &mut rows[a]);
    }
    assert(grid(rows@) =~= exchanged(grid(before), a as int, b as int));
}

fn exchange<A: Copy>(s: &mut Vec<A>, a: usize, b: usize)
    requires
        a < old(s)@.len(),
        b < old(s)@.len(),
    ensures
        final(s)@ == exchanged(old(s)@, a as int, b as int),
{
    let t: A = s[a];
    s[a] = s[b];
    s[b] = t;
}

/// Every row has `length` frames, there is one section of `b` for each row, and
/// every boundary lies within them.
pub open spec fn bounded<T>(rows: Seq<Seq<T>>, b: Seq<usize>, length: nat) -> bool {
    &&& b.len() == 2 * rows.len()
    &&& forall|i: int| 0 <= i < rows.len() ==> (#[trigger] rows[i]).len() == length
    &&& forall|c: int| 0 <= c < b.len() ==> #[trigger] b[c] < length
}

/// The sections lie within contours of `length` frames, which have at least two
/// where there is a section.
pub open spec fn sections_fit<T>(rows: Seq<Seq<T>>, b: Seq<usize>, length: nat) -> bool {
    bounded(rows, b, length) && (rows.len() > 0 ==> length >= 2)
}

proof fn lemma_widened<T: Scalar>(row: Seq<T>, offer: Offer<T>, st: int, ed: int)
    requires
        2 <= row.len(),
        0 <= st < row.len(),
        0 <= ed < row.len(),
    ensures
        ({
            let w = widened(row, offer, st, ed);
            &&& w.0.len() == row.len()
            &&& 0 <= w.1 <= st
            &&& ed <= w.2 < row.len()
        }),
{
    let end = if row.len() - 2 < ed + 100 { row.len() - 2 } else { ed + 100 };
    let start = if st - 100 < 1 { 1 } else { st - 100 };
    law_growth_is_local(row, offer, Direction::Forward, ed, end);
    let right = grown_from(row, offer, Direction::Forward, ed, end);
    law_growth_is_local(right.0, offer, Direction::Backward, st, start);
}

proof fn lemma_widened_bounded<T: Scalar>(
    rows: Seq<Seq<T>>,
    b: Seq<usize>,
    offer: Offer<T>,
    length: nat,
)
    requires
        sections_fit(rows, b, length),
        length <= usize::MAX,
    ensures
        bounded(widened_rows(rows, offer, b), widened_bounds(rows, offer, b), length),
{
    assert forall|i: int| 0 <= i < rows.len() implies (#[trigger] widened_rows(
        rows,
        offer,
        b,
    )[i]).len() == length by {
        lemma_widened(rows[i], offer, b[2 * i] as int, b[2 * i + 1] as int);
    }
    assert forall|c: int| 0 <= c < b.len() implies #[trigger] widened_bounds(rows, offer, b)[c]
        < length by {
        lemma_widened(
            rows[c / 2],
            offer,
            b[2 * (c / 2)] as int,
            b[2 * (c / 2) + 1] as int,
        );
    }
}

proof fn lemma_selected_bounded<T: Scalar>(
    rows: Seq<Seq<T>>,
    b: Seq<usize>,
    length: nat,
    i: int,
)
    requires
        bounded(rows, b, length),
        0 <= i <= rows.len(),
    ensures
        bounded(selected(rows, b, i).rows, selected(rows, b, i).bounds, length),
        selected(rows, b, i).rows.len() == rows.len(),
        selected(rows, b, i).count <= i,
    decreases i,
{
    if i > 0 {
        lemma_selected_bounded(rows, b, length, i - 1);
    }
}

/// Law: growing and selecting keeps the number and the length of the contours,
/// keeps every boundary within them, and selects at most all of them.
pub proof fn law_extension_stays_in_bounds<T: Scalar>(
    rows: Seq<Seq<T>>,
    b: Seq<usize>,
    offer: Offer<T>,
    length: nat,
)
    requires
        sections_fit(rows, b, length),
        length <= usize::MAX,
    ensures
        bounded(extended(rows, b, offer).rows, extended(rows, b, offer).bounds, length),
        extended(rows, b, offer).rows.len() == rows.len(),
        extended(rows, b, offer).count <= rows.len(),
{
    lemma_widened_bounded(rows, b, offer, length);
    lemma_selected_bounded(
        widened_rows(rows, offer, b),
        widened_bounds(rows, offer, b),
        length,
        rows.len() as int,
    );
}

/// Contours `r` with boundaries `c` are the contours `rows` with boundaries `b` in
/// the order `perm`.
pub open spec fn rearranged<T>(
    rows: Seq<Seq<T>>,
    b: Seq<usize>,
    r: Seq<Seq<T>>,
    c: Seq<usize>,
    perm: Seq<int>,
) -> bool {
    &&& perm.len() == rows.len() == r.len()
    &&& perm.no_duplicates()
    &&& forall|i: int|
        0 <= i < perm.len() ==> {
            let k = #[trigger] perm[i];
            0 <= k < rows.len() && r[i] == rows[k] && c[2 * i] == b[2 * k] && c[2 * i + 1] == b[2 * k
                + 1]
        }
}

/// Law: the selection puts the contours in another order, each with its own
/// boundaries, and loses none.
pub proof fn law_selection_rearranges<T: Scalar>(
    rows: Seq<Seq<T>>,
    b: Seq<usize>,
    i: int,
) -> (perm: Seq<int>)
    requires
        b.len() == 2 * rows.len(),
        0 <= i <= rows.len(),
    ensures
        rearranged(rows, b, selected(rows, b, i).rows, selected(rows, b, i).bounds, perm),
        selected(rows, b, i).bounds.len() == b.len(),
        selected(rows, b, i).count <= i,
    decreases i,
{
    if i == 0 {
        Seq::new(rows.len(), |k: int| k)
    } else {
        let before = law_selection_rearranges(rows, b, i - 1);
        let s = selected(rows, b, i - 1);
        let st = s.bounds[2 * (i - 1)] as int;
        let ed = s.bounds[2 * (i - 1) + 1] as int;
        let mean = running_mean(s.mean, s.rows[i - 1], st, ed);
        if long_enough(mean, st, ed) {
            let c = s.count as int;
            let now = selected(rows, b, i);
            let perm = exchanged(before, c, i - 1);
            assert forall|m: int| 0 <= m < perm.len() implies {
                let k = #[trigger] perm[m];
                0 <= k < rows.len() && now.rows[m] == rows[k] && now.bounds[2 * m] == b[2 * k]
                    && now.bounds[2 * m + 1] == b[2 * k + 1]
            } by {
                let from = if m == c {
                    i - 1
                } else if m == i - 1 {
                    c
                } else {
                    m
                };
                assert(perm[m] == before[from]);
                assert(now.rows[m] == s.rows[from]);
                assert(now.bounds[2 * m] == s.bounds[2 * from]);
                assert(now.bounds[2 * m + 1] == s.bounds[2 * from + 1]);
            }
            perm
        } else {
            before
        }
    }
}

/// How many frames `b` lies ahead of `a` in the direction of `step`.
pub open spec fn ahead(step: int, a: int, b: int) -> int {
    if step == 1 {
        b - a
    } else {
        a - b
    }
}

/// What the candidates of frame `p` offer to a contour that stands at `reference`: the
/// nearest of them within the allowed range, zero where there is none.
pub open spec fn nearest_offered<T: Scalar>(offer: Offer<T>, reference: T, p: int) -> T {
    best(reference, offer.candidates[p].take(offer.number as int), offer.allowed).0
}

/// Frame `p` of `f` holds what its candidates offer to frame `q` of it, no more than
/// four frames back, with nothing in between.
pub open spec fn goes_on<T: Scalar>(f: Seq<T>, offer: Offer<T>, step: int, q: int, p: int) -> bool {
    &&& 1 <= ahead(step, q, p) <= 4
    &&& f[p] == nearest_offered(offer, f[q], p)
    &&& forall|m: int|
        1 <= ahead(step, q, m) && 1 <= ahead(step, m, p) ==> (#[trigger] f[m]).equals(zero::<T>())
}

/// Frame `p` of `f` goes on from frame `from`, or from a frame found behind it.
pub open spec fn found_on_the_way<T: Scalar>(
    f: Seq<T>,
    offer: Offer<T>,
    step: int,
    from: int,
    p: int,
) -> bool {
    exists|q: int|
        {
            &&& 0 <= ahead(step, from, q)
            &&& q == from || !f[q].equals(zero::<T>())
            &&& #[trigger] goes_on(f, offer, step, q, p)
        }
}

/// `f` has grown from frame `from` to frame `to`: every frame on the way goes on from
/// one before it, and the last was found itself.
pub open spec fn grown_along<T: Scalar>(
    f: Seq<T>,
    offer: Offer<T>,
    step: int,
    from: int,
    to: int,
) -> bool {
    &&& 0 <= ahead(step, from, to)
    &&& to != from ==> !f[to].equals(zero::<T>())
    &&& forall|p: int|
        1 <= ahead(step, from, p) && 0 <= ahead(step, p, to) ==> #[trigger] found_on_the_way(
            f,
            offer,
            step,
            from,
            p,
        )
}

/// Frame `p` of `f` offers nothing to frame `to`, and is left without a frequency.
pub open spec fn offers_nothing<T: Scalar>(f: Seq<T>, offer: Offer<T>, to: int, p: int) -> bool {
    nearest_offered(offer, f[to], p).equals(zero::<T>()) && f[p] == nearest_offered(
        offer,
        f[to],
        p,
    )
}

/// Growth of `f` ends at frame `to` for a reason: of the next four frames, none that
/// lies within the contour, other than its first frame, and not beyond `limit` has a
/// candidate that goes on from there.
pub open spec fn ends_for_a_reason<T: Scalar>(
    f: Seq<T>,
    offer: Offer<T>,
    step: int,
    to: int,
    limit: int,
) -> bool {
    forall|p: int|
        1 <= ahead(step, to, p) <= 4 && 0 < p < f.len() && 0 <= ahead(step, p, limit)
            ==> #[trigger] offers_nothing(f, offer, to, p)
}

/// The last frame that growth over `moves` frames from frame `at` may visit.
spec fn farthest(step: int, at: int, moves: nat) -> int {
    if step == 1 {
        at + moves - 1
    } else {
        at - moves + 1
    }
}

proof fn lemma_growth_follows<T: Scalar>(
    f0: Seq<T>,
    offer: Offer<T>,
    step: int,
    at: int,
    moves: nat,
    reference: T,
    reached: int,
    misses: nat,
)
    requires
        step == 1 || step == -1,
        0 <= reached < f0.len(),
        reference == f0[reached],
        ahead(step, reached, at) == misses + 1,
        misses < 4,
        forall|p: int|
            1 <= ahead(step, reached, p) <= misses ==> 0 < p < f0.len() && #[trigger] f0[p]
                == nearest_offered(offer, reference, p) && f0[p].equals(zero::<T>()),
    ensures
        ({
            let (f, r) = grown(f0, offer, step, at, moves, reference, reached, misses);
            &&& f.len() == f0.len()
            &&& 0 <= r < f0.len()
            &&& f[reached] == f0[reached]
            &&& grown_along(f, offer, step, reached, r)
            &&& ends_for_a_reason(f, offer, step, r, farthest(step, at, moves))
        }),
    decreases moves,
{
    let (f, r) = grown(f0, offer, step, at, moves, reference, reached, misses);
    lemma_growth_is_local(f0, offer, step, at, moves, reference, reached, misses);
    if moves == 0 || at <= 0 || at >= f0.len() {
        assert(f == f0 && r == reached);
        assert forall|p: int|
            1 <= ahead(step, r, p) <= 4 && 0 < p < f.len() && 0 <= ahead(
                step,
                p,
                farthest(step, at, moves),
            ) implies #[trigger] offers_nothing(f, offer, r, p) by {
            assert(1 <= ahead(step, reached, p) <= misses);
            assert(f0[p] == nearest_offered(offer, reference, p));
            assert(f0[p].equals(zero::<T>()));
        }
    } else {
        let found = offer.next(reference, at);
        let next = f0.update(at, found);
        assert(found == nearest_offered(offer, reference, at));
        if !found.equals(zero::<T>()) {
            lemma_growth_follows(next, offer, step, at + step, (moves - 1) as nat, found, at, 0);
            lemma_growth_is_local(next, offer, step, at + step, (moves - 1) as nat, found, at, 0);
            assert(f[at] == found);
            assert forall|p: int|
                1 <= ahead(step, reached, p) && 0 <= ahead(
                    step,
                    p,
                    r,
                ) implies #[trigger] found_on_the_way(f, offer, step, reached, p) by {
                if 1 <= ahead(step, at, p) {
                    assert(found_on_the_way(f, offer, step, at, p));
                    let q = choose|q: int|
                        {
                            &&& 0 <= ahead(step, at, q)
                            &&& q == at || !f[q].equals(zero::<T>())
                            &&& #[trigger] goes_on(f, offer, step, q, p)
                        };
                    assert(goes_on(f, offer, step, q, p));
                } else {
                    assert forall|m: int|
                        1 <= ahead(step, reached, m) && 1 <= ahead(step, m, at) implies f[m]
                        == f0[m] && (#[trigger] f[m]).equals(zero::<T>()) by {
                        assert(f0[m].equals(zero::<T>()));
                        assert(next[m] == f0[m]);
                        assert(!on_the_way(step, at + step, (moves - 1) as nat, m));
                    }
                    if p != at {
                        assert(f[p] == f0[p]);
                    }
                    assert(goes_on(f, offer, step, reached, p));
                }
            }
            assert(farthest(step, at + step, (moves - 1) as nat) == farthest(step, at, moves));
        } else if misses + 1 == patience() {
            assert(f == next && r == reached);
            assert forall|p: int|
                1 <= ahead(step, r, p) <= 4 && 0 < p < f.len() implies #[trigger] offers_nothing(
                f,
                offer,
                r,
                p,
            ) by {
                if p != at {
                    assert(1 <= ahead(step, reached, p) <= misses);
                    assert(f[p] == f0[p]);
                }
            }
        } else {
            lemma_growth_follows(
                next,
                offer,
                step,
                at + step,
                (moves - 1) as nat,
                reference,
                reached,
                misses + 1,
            );
        }
    }
}

/// A section of `row` from `st` to `ed` has grown into the section of `f` from `lo` to
/// `hi`: its own frames stay, the frames on either side follow the candidates as far as
/// these go on, and frames more than a hundred and one away stay.
pub open spec fn grown_both_ways<T: Scalar>(
    row: Seq<T>,
    st: int,
    ed: int,
    offer: Offer<T>,
    f: Seq<T>,
    lo: int,
    hi: int,
) -> bool {
    &&& f.len() == row.len()
    &&& 0 <= lo <= st
    &&& ed <= hi < row.len()
    &&& forall|p: int|
        0 <= p < row.len() && (st <= p <= ed || p < st - 101 || ed + 101 < p) ==> #[trigger] f[p]
            == row[p]
    &&& grown_along(f, offer, 1, ed, hi)
    &&& grown_along(f, offer, -1, st, lo)
    &&& ends_for_a_reason(f, offer, 1, hi, ed + 101)
    &&& ends_for_a_reason(f, offer, -1, lo, st - 101)
}

/// Law: a section grows in both directions, and each way it ends only at the end of the
/// contour, after a hundred and one frames, or before four frames that offer nothing.
pub proof fn law_section_grows_both_ways<T: Scalar>(row: Seq<T>, offer: Offer<T>, st: int, ed: int)
    requires
        2 <= row.len(),
        0 <= st <= ed < row.len(),
    ensures
        ({
            let w = widened(row, offer, st, ed);
            grown_both_ways(row, st, ed, offer, w.0, w.1, w.2)
        }),
{
    let end = if row.len() - 2 < ed + 100 { row.len() - 2 } else { ed + 100 };
    let start = if st - 100 < 1 { 1 } else { st - 100 };
    let (g, hi) = grown_from(row, offer, Direction::Forward, ed, end);
    let (f, lo) = grown_from(g, offer, Direction::Backward, st, start);
    law_growth_is_local(row, offer, Direction::Forward, ed, end);
    law_growth_is_local(g, offer, Direction::Backward, st, start);
    let right = (if end > ed { end - ed } else { ed - end }) + 1;
    let left = (if start > st { start - st } else { st - start }) + 1;
    lemma_growth_follows(row, offer, 1, ed + 1, right as nat, row[ed], ed, 0);
    lemma_growth_follows(g, offer, -1, st - 1, left as nat, g[st], st, 0);
    lemma_growth_is_local(row, offer, 1, ed + 1, right as nat, row[ed], ed, 0);
    lemma_growth_is_local(g, offer, -1, st - 1, left as nat, g[st], st, 0);
    assert((g, hi) == grown(row, offer, 1, ed + 1, right as nat, row[ed], ed, 0));
    assert((f, lo) == grown(g, offer, -1, st - 1, left as nat, g[st], st, 0));
    assert forall|p: int| 0 <= p < row.len() && st <= p implies #[trigger] f[p] == g[p] by {
        assert(!on_the_way(-1, st - 1, left as nat, p));
    }
    assert forall|p: int|
        0 <= p < row.len() && (st <= p <= ed || p < st - 101 || ed + 101 < p) implies #[trigger] f[p]
        == row[p] by {
        assert(g[p] == row[p]) by {
            assert(!on_the_way(1, ed + 1, right as nat, p));
        }
        if p < st - 101 {
            assert(p == 0 || !on_the_way(-1, st - 1, left as nat, p));
        }
    }
    assert(grown_along(f, offer, 1, ed, hi)) by {
        assert forall|p: int|
            1 <= ahead(1, ed, p) && 0 <= ahead(1, p, hi) implies #[trigger] found_on_the_way(
            f,
            offer,
            1,
            ed,
            p,
        ) by {
            assert(found_on_the_way(g, offer, 1, ed, p));
            let q = choose|q: int|
                {
                    &&& 0 <= ahead(1, ed, q)
                    &&& q == ed || !g[q].equals(zero::<T>())
                    &&& #[trigger] goes_on(g, offer, 1, q, p)
                };
            assert(f[q] == g[q] && f[p] == g[p]);
            assert forall|m: int| 1 <= ahead(1, q, m) && 1 <= ahead(1, m, p) implies (
            #[trigger] f[m]).equals(zero::<T>()) by {
                assert(f[m] == g[m]);
            }
            assert(goes_on(f, offer, 1, q, p));
        }
    }
    assert forall|p: int|
        1 <= ahead(1, hi, p) <= 4 && 0 < p < f.len() && 0 <= ahead(
            1,
            p,
            ed + 101,
        ) implies #[trigger] offers_nothing(f, offer, hi, p) by {
        assert(offers_nothing(g, offer, hi, p));
    }
    assert forall|p: int|
        1 <= ahead(-1, lo, p) <= 4 && 0 < p < f.len() && 0 <= ahead(
            -1,
            p,
            st - 101,
        ) implies #[trigger] offers_nothing(f, offer, lo, p) by {}
}

/// Law: growing and selecting puts the sections in another order, loses none, and each
/// has grown in both directions.
pub proof fn law_every_section_grows<T: Scalar>(
    rows: Seq<Seq<T>>,
    b: Seq<usize>,
    offer: Offer<T>,
    length: nat,
) -> (perm: Seq<int>)
    requires
        sections_fit(rows, b, length),
        length <= usize::MAX,
        forall|k: int| 0 <= k < rows.len() ==> #[trigger] b[2 * k] <= b[2 * k + 1],
    ensures
        perm.len() == rows.len(),
        perm.no_duplicates(),
        forall|i: int|
            0 <= i < perm.len() ==> {
                let k = #[trigger] perm[i];
                let s = extended(rows, b, offer);
                &&& 0 <= k < rows.len()
                &&& grown_both_ways(
                    rows[k],
                    b[2 * k] as int,
                    b[2 * k + 1] as int,
                    offer,
                    s.rows[i],
                    s.bounds[2 * i] as int,
                    s.bounds[2 * i + 1] as int,
                )
            },
{
    let wr = widened_rows(rows, offer, b);
    let wb = widened_bounds(rows, offer, b);
    let perm = law_selection_rearranges(wr, wb, rows.len() as int);
    assert forall|i: int| 0 <= i < perm.len() implies {
        let k = #[trigger] perm[i];
        let s = extended(rows, b, offer);
        &&& 0 <= k < rows.len()
        &&& grown_both_ways(
            rows[k],
            b[2 * k] as int,
            b[2 * k + 1] as int,
            offer,
            s.rows[i],
            s.bounds[2 * i] as int,
            s.bounds[2 * i + 1] as int,
        )
    } by {
        let k = perm[i];
        let (st, ed) = (b[2 * k] as int, b[2 * k + 1] as int);
        assert(rows[k].len() == length);
        assert(b[2 * k] < length && b[2 * k + 1] < length);
        law_section_grows_both_ways(rows[k], offer, st, ed);
        lemma_widened(rows[k], offer, st, ed);
        assert((2 * k) / 2 == k && (2 * k + 1) / 2 == k);
        assert(wr[k] == widened(rows[k], offer, st, ed).0);
        assert(wb[2 * k] == widened(rows[k], offer, st, ed).1);
        assert(wb[2 * k + 1] == widened(rows[k], offer, st, ed).2);
    }
    perm
}

fn widen_sections<T: Scalar>(
    multi_channel_f0: &mut Vec<Vec<T>>,
    boundary_list: &Vec<usize>,
    f0_length: usize,
    f0_candidates: &Vec<Vec<T>>,
    number_of_candidates: usize,
    allowed_range: T,
) -> (shifted: Vec<usize>)
    requires
        f0_length < i32::MAX - 100,
        sections_fit(grid(old(multi_channel_f0)@), boundary_list@, f0_length as nat),
        offered(f0_candidates@, number_of_candidates, allowed_range).covers(f0_length as nat),
    ensures
        grid(final(multi_channel_f0)@) == widened_rows(
            grid(old(multi_channel_f0)@),
            offered(f0_candidates@, number_of_candidates, allowed_range),
            boundary_list@,
        ),
        shifted@ == widened_bounds(
            grid(old(multi_channel_f0)@),
            offered(f0_candidates@, number_of_candidates, allowed_range),
            boundary_list@,
        ),
{
    let ghost offer = offered(f0_candidates@, number_of_candidates, allowed_range);
    let ghost rows = grid(multi_channel_f0@);
    let ghost b = boundary_list@;
    let ghost wr = widened_rows(rows, offer, b);
    let ghost wb = widened_bounds(rows, offer, b);
    let number_of_boundaries: usize = boundary_list.len();
    let sections: usize = multi_channel_f0.len();
    let mut shifted: Vec<usize> = Vec::with_capacity(number_of_boundaries);
    for i in 0..sections
        invariant
            f0_length < i32::MAX - 100,
            b == boundary_list@,
            sections_fit(rows, b, f0_length as nat),
            offer == offered(f0_candidates@, number_of_candidates, allowed_range),
            offer.covers(f0_length as nat),
            wr == widened_rows(rows, offer, b),
            wb == widened_bounds(rows, offer, b),
            sections == rows.len() == multi_channel_f0@.len(),
            number_of_boundaries == b.len(),
            forall|k: int|
                0 <= k < sections ==> (#[trigger] multi_channel_f0@[k])@ == if k < i {
                    wr[k]
                } else {
                    rows[k]
                },
            shifted@ == wb.take(2 * i),
    {
        let ed: usize = boundary_list[i * 2 + 1];
        let st: usize = boundary_list[i * 2];
        assert(rows[i as int].len() == f0_length);
        assert(b[2 * i] < f0_length && b[2 * i + 1] < f0_length);
        let end: i32 = my_min_i(f0_length as i32 - 2, (ed + 100) as i32);
        let start: i32 = my_max_i(1, st as i32 - 100);
        proof {
            lemma_widened(rows[i as int], offer, st as int, ed as int);
        }
        let mut row: Vec<T> = Vec::new();
        std::mem::swap(&mut row, &mut multi_channel_f0[i]);
        let right: usize = extend_f0(
            &mut row,
            ed,
            end as usize,
            Direction::Forward,
            f0_candidates,
            number_of_candidates,
            allowed_range,
        );
        let left: usize = extend_f0(
            &mut row,
            st,
            start as usize,
            Direction::Backward,
            f0_candidates,
            number_of_candidates,
            allowed_range,
        );
        std::mem::swap(&mut row, &mut multi_channel_f0[i]);
        shifted.push(left);
        shifted.push(right);
        assert((2 * i) / 2 == i && (2 * i + 1) / 2 == i);
        assert(shifted@ =~= wb.take(2 * (i + 1)));
    }
    assert(grid(multi_channel_f0@) =~= wr);
    assert(shifted@ =~= wb);
    shifted
}

fn select_sections<T: Scalar>(
    multi_channel_f0: &mut Vec<Vec<T>>,
    boundary_list: &mut Vec<usize>,
    f0_length: usize,
) -> (count: usize)
    requires
        bounded(grid(old(multi_channel_f0)@), old(boundary_list)@, f0_length as nat),
    ensures
        ({
            let s = selected(
                grid(old(multi_channel_f0)@),
                old(boundary_list)@,
                old(multi_channel_f0)@.len() as int,
            );
            &&& grid(final(multi_channel_f0)@) == s.rows
            &&& final(boundary_list)@ == s.bounds
            &&& count == s.count
        }),
{
    let ghost rows = grid(multi_channel_f0@);
    let ghost b = boundary_list@;
    let o: T = nought();
    let threshold_sec: T = T::from_int(2200);
    let sections: usize = multi_channel_f0.len();
    let number_of_boundaries: usize = boundary_list.len();
    let mut count: usize = 0;
    let mut mean_f0: T = o;
    for i in 0..sections
        invariant
            o == zero::<T>(),
            threshold_sec == T::of_int(2200),
            bounded(rows, b, f0_length as nat),
            sections == rows.len(),
            number_of_boundaries == b.len(),
            grid(multi_channel_f0@) == selected(rows, b, i as int).rows,
            boundary_list@ == selected(rows, b, i as int).bounds,
            count == selected(rows, b, i as int).count,
            mean_f0 == selected(rows, b, i as int).mean,
    {
        let ghost s = selected(rows, b, i as int);
        proof {
            lemma_selected_bounded(rows, b, f0_length as nat, i as int);
        }
        assert(s.rows[i as int] == multi_channel_f0@[i as int]@);
        assert(s.rows[i as int].len() == f0_length);
        let st: usize = boundary_list[i * 2];
        let ed: usize = boundary_list[i * 2 + 1];
        let hi: usize = if ed < f0_length { ed } else { f0_length };
        let mut j: usize = st;
        while j < hi
            invariant
                st <= j,
                hi <= f0_length,
                i < multi_channel_f0@.len(),
                multi_channel_f0@[i as int]@.len() == f0_length,
                mean_f0 == total(s.mean, multi_channel_f0@[i as int]@, st as int, j as int),
                st < hi ==> j <= hi,
                st >= hi ==> j == st,
            decreases hi - j,
        {
            mean_f0 = mean_f0.plus(multi_channel_f0[i][j]);
            j = j + 1;
        }
        if ed > st {
            mean_f0 = mean_f0.over(T::from_int((ed - st) as i128));
        }
        assert(mean_f0 == running_mean(s.mean, s.rows[i as int], st as int, ed as int));
        if o.less(mean_f0) && threshold_sec.over(mean_f0).less(
            T::from_int(ed as i128).minus(T::from_int(st as i128)),
        ) {
            exchange_rows(multi_channel_f0, count, i);
            exchange(boundary_list, count * 2, i * 2);
            exchange(boundary_list, count * 2 + 1, i * 2 + 1);
            count = count + 1;
        }
    }
    count
}

/// Grows every section on both sides, moves those that are long enough to the
/// front, and returns their number.
pub fn extend<T: Scalar>(
    multi_channel_f0: &mut Vec<Vec<T>>,
    boundary_list: &mut Vec<usize>,
    f0_length: usize,
    f0_candidates: &Vec<Vec<T>>,
    number_of_candidates: usize,
    allowed_range: T,
) -> (count: usize)
    requires
        f0_length < i32::MAX - 100,
        sections_fit(grid(old(multi_channel_f0)@), old(boundary_list)@, f0_length as nat),
        offered(f0_candidates@, number_of_candidates, allowed_range).covers(f0_length as nat),
    ensures
        ({
            let s = extended(
                grid(old(multi_channel_f0)@),
                old(boundary_list)@,
                offered(f0_candidates@, number_of_candidates, allowed_range),
            );
            &&& grid(final(multi_channel_f0)@) == s.rows
            &&& final(boundary_list)@ == s.bounds
            &&& count == s.count
        }),
{
    proof {
        lemma_widened_bounded(
            grid(multi_channel_f0@),
            boundary_list@,
            offered(f0_candidates@, number_of_candidates, allowed_range),
            f0_length as nat,
        );
    }
    let shifted: Vec<usize> = widen_sections(
        multi_channel_f0,
        boundary_list,
        f0_length,
        f0_candidates,
        number_of_candidates,
        allowed_range,
    );
    *boundary_list = shifted;
    select_sections(multi_channel_f0, boundary_list, f0_length)
}

} // verus!
