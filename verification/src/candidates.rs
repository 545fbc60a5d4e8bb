//! Frequency candidates of each frame: the means of wide runs of adjacent
//! channels that agree, shared with the frames next to it.
use crate::basics::{filled, grid, nought, zero};
use crate::scalar::Scalar;
use vstd::prelude::*;

verus! {

/// The positions before `i` at which `v` starts to hold.
pub open spec fn rises_upto(v: Seq<bool>, i: int) -> Seq<usize>
    decreases i,
{
    if i <= 1 {
        Seq::empty()
    } else if v[i - 1] && !v[i - 2] {
        rises_upto(v, i - 1).push((i - 1) as usize)
    } else {
        rises_upto(v, i - 1)
    }
}

/// The positions before `i` at which `v` ceases to hold.
pub open spec fn falls_upto(v: Seq<bool>, i: int) -> Seq<usize>
    decreases i,
{
    if i <= 1 {
        Seq::empty()
    } else if !v[i - 1] && v[i - 2] {
        falls_upto(v, i - 1).push((i - 1) as usize)
    } else {
        falls_upto(v, i - 1)
    }
}

/// The positions at which `v` starts to hold.
pub open spec fn rises(v: Seq<bool>) -> Seq<usize> {
    rises_upto(v, v.len() as int)
}

/// The positions at which `v` ceases to hold.
pub open spec fn falls(v: Seq<bool>) -> Seq<usize> {
    falls_upto(v, v.len() as int)
}

/// Whether position `p` lies in run `k`, from `st[k]` up to but not including
/// `ed[k]`.
pub open spec fn in_run(st: Seq<usize>, ed: Seq<usize>, k: int, p: int) -> bool {
    0 <= k < ed.len() && st[k] <= p < ed[k]
}

/// `st` and `ed` list the maximal runs of positions at which `v` holds.
pub open spec fn lists_runs(v: Seq<bool>, st: Seq<usize>, ed: Seq<usize>) -> bool {
    &&& st.len() == ed.len()
    &&& forall|k: int|
        #![trigger st[k]]
        #![trigger ed[k]]
        0 <= k < ed.len() ==> 0 < st[k] < ed[k] < v.len()
    &&& forall|k: int, l: int| 0 <= k < l < ed.len() ==> #[trigger] ed[k] < #[trigger] st[l]
    &&& forall|p: int|
        0 <= p < v.len() ==> (#[trigger] v[p] <==> exists|k: int| in_run(st, ed, k, p))
}

/// Whether `p` lies in run `k`, the last run being open if it has no end yet.
spec fn in_open_run(st: Seq<usize>, ed: Seq<usize>, k: int, p: int) -> bool {
    0 <= k < st.len() && st[k] <= p && (k < ed.len() ==> p < ed[k])
}

spec fn lists_runs_upto(v: Seq<bool>, st: Seq<usize>, ed: Seq<usize>, i: int) -> bool {
    &&& st.len() == if v[i - 1] { ed.len() + 1 } else { ed.len() }
    &&& forall|k: int| 0 <= k < st.len() ==> 0 < #[trigger] st[k] < i
    &&& forall|k: int| 0 <= k < ed.len() ==> st[k] < #[trigger] ed[k] < i
    &&& forall|k: int, l: int|
        0 <= k < l < st.len() && k < ed.len() ==> #[trigger] ed[k] < #[trigger] st[l]
    &&& forall|p: int|
        0 <= p < i ==> (#[trigger] v[p] <==> exists|k: int| in_open_run(st, ed, k, p))
}

proof fn lemma_runs_upto(v: Seq<bool>, i: int)
    requires
        1 <= i <= v.len() <= usize::MAX,
        !v[0],
    ensures
        lists_runs_upto(v, rises_upto(v, i), falls_upto(v, i), i),
    decreases i,
{
    let st = rises_upto(v, i);
    let ed = falls_upto(v, i);
    if i > 1 {
        lemma_runs_upto(v, i - 1);
        let s = rises_upto(v, i - 1);
        let e = falls_upto(v, i - 1);
        let q = i - 1;
        assert forall|p: int| 0 <= p < i implies (#[trigger] v[p] <==> exists|k: int|
            in_open_run(st, ed, k, p)) by {
            if p < q {
                if exists|k: int| in_open_run(s, e, k, p) {
                    let k = choose|k: int| in_open_run(s, e, k, p);
                    assert(in_open_run(st, ed, k, p));
                }
                if exists|k: int| in_open_run(st, ed, k, p) {
                    let k = choose|k: int| in_open_run(st, ed, k, p);
                    assert(in_open_run(s, e, k, p));
                }
            } else if v[q] {
                assert(in_open_run(st, ed, st.len() - 1, q));
            } else if exists|k: int| in_open_run(st, ed, k, q) {
                let k = choose|k: int| in_open_run(st, ed, k, q);
                assert(ed[k] <= q);
            }
        }
    }
}

/// Law: where `v` holds neither at the first nor at the last position, rises and
/// falls pair up, and the pairs are the maximal runs at which `v` holds.
pub proof fn law_runs(v: Seq<bool>)
    requires
        0 < v.len() <= usize::MAX,
        !v[0],
        !v.last(),
    ensures
        lists_runs(v, rises(v), falls(v)),
{
    let n = v.len() as int;
    lemma_runs_upto(v, n);
    let st = rises(v);
    let ed = falls(v);
    assert forall|p: int| 0 <= p < v.len() implies (#[trigger] v[p] <==> exists|k: int|
        in_run(st, ed, k, p)) by {
        if exists|k: int| in_run(st, ed, k, p) {
            let k = choose|k: int| in_run(st, ed, k, p);
            assert(in_open_run(st, ed, k, p));
        }
        if exists|k: int| in_open_run(st, ed, k, p) {
            let k = choose|k: int| in_open_run(st, ed, k, p);
            assert(in_run(st, ed, k, p));
        }
    }
}

/// Where `vuv` starts and where it ceases to hold.
pub fn detect_official_f0_candidates_sub1(vuv: &[bool]) -> (r: (Vec<usize>, Vec<usize>))
    ensures
        r.0@ == rises(vuv@),
        r.1@ == falls(vuv@),
{
    let mut st: Vec<usize> = Vec::new();
    let mut ed: Vec<usize> = Vec::new();
    let mut i: usize = 1;
    while i < vuv.len()
        invariant
            1 <= i,
            i <= vuv@.len() || i == 1,
            st@ == rises_upto(vuv@, i as int),
            ed@ == falls_upto(vuv@, i as int),
        decreases vuv@.len() - i,
    {
        if vuv[i] && !vuv[i - 1] {
            st.push(i);
        }
        if !vuv[i] && vuv[i - 1] {
            ed.push(i);
        }
        i = i + 1;
    }
    (st, ed)
}

/// Whether run `k` spans at least ten channels.
pub open spec fn wide_run(st: Seq<usize>, ed: Seq<usize>, k: int) -> bool {
    ed[k] - st[k] >= 10
}

/// The wide runs among the first `n`, in order.
pub open spec fn wide_runs(st: Seq<usize>, ed: Seq<usize>, n: int) -> Seq<int>
    decreases n,
{
    if n <= 0 {
        Seq::empty()
    } else if wide_run(st, ed, n - 1) {
        wide_runs(st, ed, n - 1).push(n - 1)
    } else {
        wide_runs(st, ed, n - 1)
    }
}

/// The values at `frame` of the channels from `lo` up to but not including `hi`,
/// added up in order.
pub open spec fn channel_total<T: Scalar>(raw: Seq<Seq<T>>, frame: int, lo: int, hi: int) -> T
    decreases hi - lo,
{
    if hi <= lo {
        zero::<T>()
    } else {
        channel_total(raw, frame, lo, hi - 1) + raw[hi - 1][frame]
    }
}

/// The mean at `frame` of the channels of a run.
pub open spec fn run_mean<T: Scalar>(raw: Seq<Seq<T>>, frame: int, lo: int, hi: int) -> T {
    channel_total(raw, frame, lo, hi) / T::of_int(hi - lo)
}

/// Entry `c` of the candidates of a frame: the mean of its `c`-th wide run, zero
/// where there is none.
pub open spec fn candidate<T: Scalar>(
    raw: Seq<Seq<T>>,
    frame: int,
    st: Seq<usize>,
    ed: Seq<usize>,
    c: int,
) -> T {
    let wide = wide_runs(st, ed, shorter(st, ed));
    if c < wide.len() {
        run_mean(raw, frame, st[wide[c]] as int, ed[wide[c]] as int)
    } else {
        zero::<T>()
    }
}

/// The number of runs that have both a start and an end.
pub open spec fn shorter(st: Seq<usize>, ed: Seq<usize>) -> int {
    if st.len() < ed.len() {
        st.len() as int
    } else {
        ed.len() as int
    }
}

/// The number of candidates that a frame reports: that of its wide runs, at most
/// `limit` of them (one where `limit` is zero).
pub open spec fn reported(st: Seq<usize>, ed: Seq<usize>, limit: nat) -> nat {
    let wide = wide_runs(st, ed, shorter(st, ed)).len();
    let most = if limit == 0 { 1 } else { limit };
    if wide < most {
        wide
    } else {
        most
    }
}

proof fn lemma_wide_runs_extend(st: Seq<usize>, ed: Seq<usize>, n: int, m: int)
    requires
        0 <= n <= m,
    ensures
        wide_runs(st, ed, n).len() <= wide_runs(st, ed, m).len(),
        forall|c: int|
            0 <= c < wide_runs(st, ed, n).len() ==> #[trigger] wide_runs(st, ed, m)[c]
                == wide_runs(st, ed, n)[c],
    decreases m - n,
{
    if n < m {
        lemma_wide_runs_extend(st, ed, n, m - 1);
    }
}

/// The channels of every wide run that is looked at have a value at `frame`: the
/// first `limit` of them, one where `limit` is zero.
pub open spec fn runs_readable<T>(
    raw: Seq<Vec<T>>,
    frame: int,
    st: Seq<usize>,
    ed: Seq<usize>,
    limit: nat,
) -> bool {
    forall|i: int|
        0 <= i < shorter(st, ed) && #[trigger] wide_run(st, ed, i) && (wide_runs(st, ed, i).len()
            < limit || wide_runs(st, ed, i).len() == 0) ==> {
            &&& ed[i] <= raw.len()
            &&& forall|k: int| st[i] <= k < ed[i] ==> frame < (#[trigger] raw[k])@.len()
        }
}

/// Fills the first `max_candidates` entries of `out` with the candidates of
/// frame `index` and returns how many there are.
pub fn detect_official_f0_candidates_sub2<T: Scalar>(
    raw_f0_candidates: &Vec<Vec<T>>,
    index: usize,
    st: &[usize],
    ed: &[usize],
    max_candidates: usize,
    out: &mut Vec<T>,
) -> (number: usize)
    requires
        max_candidates <= old(out)@.len(),
        runs_readable(raw_f0_candidates@, index as int, st@, ed@, max_candidates as nat),
    ensures
        final(out)@ == Seq::new(
            old(out)@.len(),
            |c: int|
                if c < max_candidates {
                    candidate(grid(raw_f0_candidates@), index as int, st@, ed@, c)
                } else {
                    old(out)@[c]
                },
        ),
        number == reported(st@, ed@, max_candidates as nat),
{
    let ghost raw = grid(raw_f0_candidates@);
    let ghost before = out@;
    let n: usize = if st.len() < ed.len() { st.len() } else { ed.len() };
    let mut number: usize = 0;
    let mut i: usize = 0;
    let mut full: bool = false;
    while i < n && !full
        invariant
            raw == grid(raw_f0_candidates@),
            max_candidates <= before.len() == out@.len(),
            n == shorter(st@, ed@),
            i <= n,
            runs_readable(raw_f0_candidates@, index as int, st@, ed@, max_candidates as nat),
            number == wide_runs(st@, ed@, i as int).len(),
            full == (number > 0 && number >= max_candidates),
            !full ==> number <= max_candidates,
            full ==> number == reported(st@, ed@, max_candidates as nat),
            forall|c: int|
                0 <= c < before.len() ==> #[trigger] out@[c] == if c < number && c
                    < max_candidates {
                    candidate(raw, index as int, st@, ed@, c)
                } else {
                    before[c]
                },
        decreases n - i,
    {
        if ed[i] > st[i] && ed[i] - st[i] >= 10 {
            assert(wide_run(st@, ed@, i as int));
            let mut tmp_f0: T = nought();
            let lo: usize = st[i];
            let hi: usize = ed[i];
            for ch in lo..hi
                invariant
                    raw == grid(raw_f0_candidates@),
                    hi <= raw_f0_candidates@.len(),
                    forall|k: int|
                        lo <= k < hi ==> index < (#[trigger] raw_f0_candidates@[k])@.len(),
                    tmp_f0 == channel_total(raw, index as int, lo as int, ch as int),
            {
                assert(raw[ch as int] == raw_f0_candidates@[ch as int]@);
                tmp_f0 = tmp_f0.plus(raw_f0_candidates[ch][index]);
            }
            tmp_f0 = tmp_f0.over(T::from_int((hi - lo) as i128));
            proof {
                lemma_wide_runs_extend(st@, ed@, i + 1, n as int);
                assert(wide_runs(st@, ed@, i + 1)[number as int] == i);
            }
            if number < max_candidates {
                out[number] = tmp_f0;
            }
            number = number + 1;
            if number >= max_candidates {
                full = true;
            }
        }
        i = i + 1;
    }
    proof {
        lemma_wide_runs_extend(st@, ed@, i as int, n as int);
    }
    let o: T = nought();
    let ghost kept = out@;
    let mut c: usize = number;
    while c < max_candidates
        invariant
            o == zero::<T>(),
            number <= c,
            c <= max_candidates || c == number,
            max_candidates <= out@.len() == kept.len(),
            forall|k: int|
                0 <= k < kept.len() ==> #[trigger] out@[k] == if number <= k < c {
                    o
                } else {
                    kept[k]
                },
        decreases max_candidates - c,
    {
        out[c] = o;
        c = c + 1;
    }
    assert(out@ =~= Seq::new(
        before.len(),
        |c: int|
            if c < max_candidates {
                candidate(raw, index as int, st@, ed@, c)
            } else {
                before[c]
            },
    ));
    number
}

/// Which of the first `channels` channels are positive at `frame`; the outermost
/// two never count.
pub open spec fn agreeing<T: Scalar>(raw: Seq<Seq<T>>, channels: nat, frame: int) -> Seq<bool> {
    Seq::new(channels, |j: int| 0 < j < channels - 1 && zero::<T>() < raw[j][frame])
}

/// Entry `c` of the candidates of `frame`.
pub open spec fn detected<T: Scalar>(raw: Seq<Seq<T>>, channels: nat, frame: int, c: int) -> T {
    let v = agreeing(raw, channels, frame);
    candidate(raw, frame, rises(v), falls(v), c)
}

/// The number of candidates that `frame` reports.
pub open spec fn detected_number<T: Scalar>(
    raw: Seq<Seq<T>>,
    channels: nat,
    frame: int,
    limit: nat,
) -> nat {
    let v = agreeing(raw, channels, frame);
    reported(rises(v), falls(v), limit)
}

/// The largest number of candidates that one of the first `frames` frames reports.
pub open spec fn most_detected<T: Scalar>(
    raw: Seq<Seq<T>>,
    channels: nat,
    frames: nat,
    limit: nat,
) -> nat
    decreases frames,
{
    if frames == 0 {
        0
    } else {
        let n = detected_number(raw, channels, frames - 1, limit);
        let m = most_detected(raw, channels, (frames - 1) as nat, limit);
        if m > n {
            m
        } else {
            n
        }
    }
}

/// Fills the candidates of each frame and returns the largest number of them.
pub fn detect_official_f0_candidates<T: Scalar>(
    raw_f0_candidates: &Vec<Vec<T>>,
    number_of_channels: usize,
    f0_length: usize,
    max_candidates: usize,
    f0_candidates: &mut Vec<Vec<T>>,
) -> (number: usize)
    requires
        number_of_channels <= raw_f0_candidates@.len(),
        forall|k: int|
            0 <= k < number_of_channels ==> f0_length <= (
            #[trigger] raw_f0_candidates@[k])@.len(),
        f0_length <= old(f0_candidates)@.len(),
        forall|k: int|
            0 <= k < f0_length ==> max_candidates <= (#[trigger] old(f0_candidates)@[k])@.len(),
    ensures
        final(f0_candidates)@.len() == old(f0_candidates)@.len(),
        forall|k: int|
            0 <= k < old(f0_candidates)@.len() ==> (#[trigger] final(f0_candidates)@[k])@
                == Seq::new(
                old(f0_candidates)@[k]@.len(),
                |c: int|
                    if k < f0_length && c < max_candidates {
                        detected(grid(raw_f0_candidates@), number_of_channels as nat, k, c)
                    } else {
                        old(f0_candidates)@[k]@[c]
                    },
            ),
        number == most_detected(
            grid(raw_f0_candidates@),
            number_of_channels as nat,
            f0_length as nat,
            max_candidates as nat,
        ),
{
    let ghost raw = grid(raw_f0_candidates@);
    let ghost channels = number_of_channels as nat;
    let ghost before = f0_candidates@;
    let o: T = nought();
    let mut number_of_candidates: usize = 0;
    for i in 0..f0_length
        invariant
            o == zero::<T>(),
            raw == grid(raw_f0_candidates@),
            channels == number_of_channels,
            number_of_channels <= raw_f0_candidates@.len(),
            forall|k: int|
                0 <= k < number_of_channels ==> f0_length <= (
                #[trigger] raw_f0_candidates@[k])@.len(),
            f0_length <= before.len() == f0_candidates@.len(),
            forall|k: int|
                0 <= k < f0_length ==> max_candidates <= (#[trigger] before[k])@.len(),
            forall|k: int| i <= k < before.len() ==> #[trigger] f0_candidates@[k] == before[k],
            forall|k: int|
                0 <= k < i ==> (#[trigger] f0_candidates@[k])@ == Seq::new(
                    before[k]@.len(),
                    |c: int|
                        if c < max_candidates {
                            detected(raw, channels, k, c)
                        } else {
                            before[k]@[c]
                        },
                ),
            number_of_candidates == most_detected(raw, channels, i as nat, max_candidates as nat),
    {
        let mut vuv: Vec<bool> = filled(number_of_channels, false);
        for j in 0..number_of_channels
            invariant
                o == zero::<T>(),
                i < f0_length,
                raw == grid(raw_f0_candidates@),
                vuv@.len() == number_of_channels,
                number_of_channels <= raw_f0_candidates@.len(),
                forall|k: int|
                    0 <= k < number_of_channels ==> f0_length <= (
                    #[trigger] raw_f0_candidates@[k])@.len(),
                forall|k: int| 0 <= k < j ==> #[trigger] vuv@[k] == (zero::<T>() < raw[k][i as int]),
        {
            assert(raw[j as int] == raw_f0_candidates@[j as int]@);
            vuv[j] = o.less(raw_f0_candidates[j][i]);
        }
        if number_of_channels > 0 {
            vuv[0] = false;
            vuv[number_of_channels - 1] = false;
        }
        assert(vuv@ =~= agreeing(raw, channels, i as int));
        let (st, ed) = detect_official_f0_candidates_sub1(&vuv);
        proof {
            lemma_falls_within(vuv@, channels as int);
            assert(f0_candidates@[i as int] == before[i as int]);
        }
        let n: usize = detect_official_f0_candidates_sub2(
            raw_f0_candidates,
            i,
            &st,
            &ed,
            max_candidates,
            &mut f0_candidates[i],
        );
        if n > number_of_candidates {
            number_of_candidates = n;
        }
        assert(f0_candidates@[i as int]@ =~= Seq::new(
            before[i as int]@.len(),
            |c: int|
                if c < max_candidates {
                    detected(raw, channels, i as int, c)
                } else {
                    before[i as int]@[c]
                },
        ));
    }
    assert forall|k: int| 0 <= k < before.len() implies (#[trigger] f0_candidates@[k])@
        == Seq::new(
        before[k]@.len(),
        |c: int|
            if k < f0_length && c < max_candidates {
                detected(raw, channels, k, c)
            } else {
                before[k]@[c]
            },
    ) by {
        if k >= f0_length {
            assert(f0_candidates@[k] == before[k]);
        }
    }
    number_of_candidates
}

proof fn lemma_falls_within(v: Seq<bool>, i: int)
    requires
        0 <= i <= v.len() <= usize::MAX,
    ensures
        forall|k: int| 0 <= k < falls_upto(v, i).len() ==> #[trigger] falls_upto(v, i)[k] <= v.len(),
    decreases i,
{
    if i > 1 {
        lemma_falls_within(v, i - 1);
        let e = falls_upto(v, i - 1);
        assert forall|k: int| 0 <= k < falls_upto(v, i).len() implies #[trigger] falls_upto(v, i)[k]
            <= v.len() by {
            if k < e.len() {
                assert(falls_upto(v, i)[k] == e[k]);
            }
        }
    }
}

/// Law: the runs from which the candidates of a frame are taken are the maximal
/// runs of inner channels that are positive there.
pub proof fn law_candidates_come_from_runs<T: Scalar>(
    raw: Seq<Seq<T>>,
    channels: nat,
    frame: int,
)
    requires
        0 < channels <= usize::MAX,
    ensures
        ({
            let v = agreeing(raw, channels, frame);
            lists_runs(v, rises(v), falls(v))
        }),
{
    law_runs(agreeing(raw, channels, frame));
}

/// Law: no frame reports more candidates than the number returned for all of
/// them, and beyond that number every entry is zero.
pub proof fn law_detected_number_bounds<T: Scalar>(
    raw: Seq<Seq<T>>,
    channels: nat,
    frames: nat,
    limit: nat,
    frame: int,
)
    requires
        0 <= frame < frames,
    ensures
        detected_number(raw, channels, frame, limit) <= most_detected(raw, channels, frames, limit),
        forall|c: int|
            most_detected(raw, channels, frames, limit) <= c < limit ==> #[trigger] detected(
                raw,
                channels,
                frame,
                c,
            ) == zero::<T>(),
    decreases frames,
{
    if frame < frames - 1 {
        law_detected_number_bounds(raw, channels, (frames - 1) as nat, limit, frame);
    }
}

proof fn lemma_wide_runs_take_room(v: Seq<bool>, st: Seq<usize>, ed: Seq<usize>, n: int)
    requires
        lists_runs(v, st, ed),
        0 <= n <= ed.len(),
    ensures
        wide_runs(st, ed, n).len() > 0 ==> {
            let last = wide_runs(st, ed, n).last();
            0 <= last < n && 11 * wide_runs(st, ed, n).len() <= ed[last]
        },
    decreases n,
{
    if n > 0 {
        lemma_wide_runs_take_room(v, st, ed, n - 1);
        let w = wide_runs(st, ed, n - 1);
        if wide_run(st, ed, n - 1) && w.len() > 0 {
            assert(ed[w.last()] < st[n - 1]);
        }
    }
}

/// Law: a wide run takes ten channels and a gap, so that a frame of `channels`
/// channels never has more than a tenth of their number, rounded, as candidates.
pub proof fn law_candidates_take_room<T: Scalar>(
    raw: Seq<Seq<T>>,
    channels: nat,
    frames: nat,
    limit: nat,
)
    requires
        0 < channels <= usize::MAX,
    ensures
        11 * most_detected(raw, channels, frames, limit) <= channels - 1,
        most_detected(raw, channels, frames, limit) <= (channels + 5) / 10,
    decreases frames,
{
    if frames > 0 {
        law_candidates_take_room(raw, channels, (frames - 1) as nat, limit);
        let v = agreeing(raw, channels, frames - 1);
        law_runs(v);
        let (st, ed) = (rises(v), falls(v));
        lemma_wide_runs_take_room(v, st, ed, ed.len() as int);
        let w = wide_runs(st, ed, ed.len() as int);
        if w.len() > 0 {
            assert(st[w.last()] < ed[w.last()] < v.len());
        }
    }
}

/// The frame whose candidates group `g` of frame `k` repeats: groups 1 to 3 the
/// frames before it, groups 4 to 6 the frames after it.
pub open spec fn lending_frame(k: int, g: int) -> int {
    if g <= 3 {
        k - g
    } else {
        k + g - 3
    }
}

/// Entry `c` of frame `k` once every frame has been given the `number` base
/// candidates of the three frames on either side of it.
pub open spec fn shared<T>(
    before: Seq<Seq<T>>,
    frames: int,
    number: int,
    k: int,
    c: int,
) -> T {
    if 0 < number && k < frames && 1 <= c / number <= 6 && 0 <= lending_frame(k, c / number)
        < frames {
        before[lending_frame(k, c / number)][c % number]
    } else {
        before[k][c]
    }
}

/// The candidates of all frames after the exchange.
pub open spec fn overlapped<T>(before: Seq<Seq<T>>, frames: int, number: int) -> Seq<Seq<T>> {
    Seq::new(
        before.len(),
        |k: int| Seq::new(before[k].len(), |c: int| shared(before, frames, number, k, c)),
    )
}

/// Every entry that is to be repeated is there.
pub open spec fn lenders_hold<T>(before: Seq<Seq<T>>, frames: int, number: int) -> bool {
    forall|k: int, c: int|
        #![trigger before[k][c]]
        0 <= k < frames && number <= c < before[k].len() && 1 <= c / number <= 6 && 0
            <= lending_frame(k, c / number) < frames ==> c % number < before[lending_frame(
            k,
            c / number,
        )].len()
}

/// Gives every frame the candidates of its neighbours.
pub fn overlap_f0_candidates<T: Scalar>(
    f0_length: usize,
    number_of_candidates: usize,
    f0_candidates: &mut Vec<Vec<T>>,
)
    requires
        number_of_candidates > 0 ==> f0_length <= old(f0_candidates)@.len() && lenders_hold(
            grid(old(f0_candidates)@),
            f0_length as int,
            number_of_candidates as int,
        ),
    ensures
        grid(final(f0_candidates)@) == overlapped(
            grid(old(f0_candidates)@),
            f0_length as int,
            number_of_candidates as int,
        ),
{
    let ghost rows = f0_candidates@;
    let ghost before = grid(rows);
    let ghost frames = f0_length as int;
    let ghost number = number_of_candidates as int;
    if number_of_candidates > 0 {
        for k in 0..f0_length
            invariant
                0 < number == number_of_candidates,
                frames == f0_length,
                before == grid(rows),
                f0_length <= rows.len() == f0_candidates@.len(),
                lenders_hold(before, frames, number),
                forall|m: int| k <= m < rows.len() ==> #[trigger] f0_candidates@[m] == rows[m],
                forall|m: int|
                    0 <= m < k ==> (#[trigger] f0_candidates@[m])@ == overlapped(
                        before,
                        frames,
                        number,
                    )[m],
        {
            let width: usize = f0_candidates[k].len();
            assert(f0_candidates@[k as int] == rows[k as int]);
            assert(before[k as int] == rows[k as int]@);
            let mut c: usize = number_of_candidates;
            while c < width
                invariant
                    k < f0_length,
                    0 < number == number_of_candidates <= c,
                    c <= width || c == number_of_candidates,
                    width == rows[k as int]@.len(),
                    frames == f0_length,
                    before == grid(rows),
                    f0_length <= rows.len() == f0_candidates@.len(),
                    lenders_hold(before, frames, number),
                    forall|m: int| k < m < rows.len() ==> #[trigger] f0_candidates@[m] == rows[m],
                    forall|m: int|
                        0 <= m < k ==> (#[trigger] f0_candidates@[m])@ == overlapped(
                            before,
                            frames,
                            number,
                        )[m],
                    f0_candidates@[k as int]@.len() == width,
                    forall|d: int|
                        number <= d < c && d < width ==> #[trigger] f0_candidates@[k as int]@[d]
                            == shared(
                            before,
                            frames,
                            number,
                            k as int,
                            d,
                        ),
                    forall|d: int|
                        c <= d < width ==> #[trigger] f0_candidates@[k as int]@[d]
                            == before[k as int][d],
                    forall|d: int|
                        0 <= d < number && d < width ==> #[trigger] f0_candidates@[k as int]@[d]
                            == before[k as int][d],
                decreases width - c,
            {
                let g: usize = c / number_of_candidates;
                let j: usize = c % number_of_candidates;
                proof {
                    lemma_group_of_late_column(c as int, number);
                    assert(before[k as int] == rows[k as int]@);
                    assert(before[k as int][c as int] == rows[k as int]@[c as int]);
                }
                if g <= 3 {
                    if g <= k {
                        proof {
                            lemma_base_columns_stay(before, frames, number, k - g, j as int);
                        }
                        let v: T = f0_candidates[k - g][j];
                        f0_candidates[k][c] = v;
                    }
                } else if g <= 6 && g - 3 < f0_length - k {
                    assert(f0_candidates@[k + g - 3] == rows[k + g - 3]);
                    let v: T = f0_candidates[k + (g - 3)][j];
                    f0_candidates[k][c] = v;
                }
                c = c + 1;
            }
            assert forall|d: int| 0 <= d < number && d < width implies f0_candidates@[k as int]@[d]
                == #[trigger] overlapped(before, frames, number)[k as int][d] by {
                lemma_base_columns_stay(before, frames, number, k as int, d);
            }
            assert(f0_candidates@[k as int]@ =~= overlapped(before, frames, number)[k as int]);
        }
    }
    assert forall|k: int| 0 <= k < rows.len() implies grid(f0_candidates@)[k] == #[trigger] overlapped(
        before,
        frames,
        number,
    )[k] by {
        assert(f0_candidates@[k]@ =~= overlapped(before, frames, number)[k]);
    }
    assert(grid(f0_candidates@) =~= overlapped(before, frames, number));
}

proof fn lemma_group_of_late_column(c: int, number: int)
    requires
        0 < number <= c,
    ensures
        1 <= c / number,
        0 <= c % number < number,
{
    vstd::arithmetic::div_mod::lemma_div_is_ordered(number, c, number);
    vstd::arithmetic::div_mod::lemma_div_by_self(number);
    vstd::arithmetic::div_mod::lemma_mod_bound(c, number);
}

proof fn lemma_base_columns_stay<T>(
    before: Seq<Seq<T>>,
    frames: int,
    number: int,
    k: int,
    j: int,
)
    requires
        0 <= k < before.len(),
        0 <= j < number,
        j < before[k].len(),
    ensures
        overlapped(before, frames, number)[k][j] == before[k][j],
{
    vstd::arithmetic::div_mod::lemma_basic_div(j, number);
}

/// Law: after the exchange, frame `k` keeps its own candidates; group `d` holds
/// those of the frame `d` before it and group `d + 3` those of the frame `d`
/// after it, for each `d` from 1 to 3.
pub proof fn law_overlap_exchanges_neighbours<T>(
    before: Seq<Seq<T>>,
    frames: int,
    number: int,
    k: int,
    j: int,
    d: int,
)
    requires
        0 <= k < frames <= before.len(),
        0 <= j < number,
        1 <= d <= 3,
        j + number * 6 < before[k].len(),
    ensures
        overlapped(before, frames, number)[k][j] == before[k][j],
        d <= k ==> overlapped(before, frames, number)[k][j + number * d] == before[k - d][j],
        k + d < frames ==> overlapped(before, frames, number)[k][j + number * (d + 3)]
            == before[k + d][j],
{
    assert(0 <= number * d <= number * (d + 3) <= number * 6) by (nonlinear_arith)
        requires
            0 < number,
            1 <= d <= 3,
    ;
    lemma_base_columns_stay(before, frames, number, k, j);
    vstd::arithmetic::mul::lemma_mul_is_commutative(number, d);
    vstd::arithmetic::mul::lemma_mul_is_commutative(number, d + 3);
    vstd::arithmetic::div_mod::lemma_fundamental_div_mod_converse(j + number * d, number, d, j);
    vstd::arithmetic::div_mod::lemma_fundamental_div_mod_converse(
        j + number * (d + 3),
        number,
        d + 3,
        j,
    );
}

} // verus!
