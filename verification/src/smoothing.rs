//! Smoothing of the final contour, one voiced section at a time.
use crate::basics::{filled, grid, nought, repeated, zero};
use crate::scalar::Scalar;
use crate::sections::{
    boundaries, channel, get_boundary_list, get_multi_channel_f0, in_section,
    law_boundaries_list_sections, lemma_sections_disjoint, ordered_sections, voiced,
};
use vstd::prelude::*;

verus! {

/// `x` with the value at `st` held before it and the value at `ed` held after it.
pub open spec fn held<T>(x: Seq<T>, st: int, ed: int) -> Seq<T> {
    Seq::new(
        x.len(),
        |i: int|
            if i < st {
                x[st]
            } else if i > ed {
                x[ed]
            } else {
                x[i]
            },
    )
}

/// The inner value of a second-order recursive filter for sample `v`.
pub open spec fn inner<T: Scalar>(a: Seq<T>, v: T, w: (T, T)) -> T {
    (v + a[0] * w.0) + a[1] * w.1
}

/// The inner values of the two samples before `i`, latest first.
pub open spec fn memory<T: Scalar>(a: Seq<T>, x: Seq<T>, i: int) -> (T, T)
    decreases i,
{
    if i <= 0 {
        (zero::<T>(), zero::<T>())
    } else {
        let w = memory(a, x, i - 1);
        (inner(a, x[i - 1], w), w.0)
    }
}

/// The output of the filter for sample `v`.
pub open spec fn outer<T: Scalar>(a: Seq<T>, b: Seq<T>, v: T, w: (T, T)) -> T {
    (b[0] * inner(a, v, w) + b[1] * w.0) + b[0] * w.1
}

/// The output of the filter.
pub open spec fn passed<T: Scalar>(a: Seq<T>, b: Seq<T>, x: Seq<T>) -> Seq<T> {
    Seq::new(x.len(), |i: int| outer(a, b, x[i], memory(a, x, i)))
}

/// `x` sent through the filter forwards and then backwards.
pub open spec fn both_ways<T: Scalar>(a: Seq<T>, b: Seq<T>, x: Seq<T>) -> Seq<T> {
    passed(a, b, passed(a, b, x).reverse()).reverse()
}

/// Sends `x` through the filter and reverses what comes out.
fn pass_reversed<T: Scalar>(a: &[T; 2], b: &[T; 2], x: &[T]) -> (y: Vec<T>)
    ensures
        y@ == passed(a@, b@, x@).reverse(),
{
    let n: usize = x.len();
    let mut w0: T = nought();
    let mut w1: T = nought();
    let mut y: Vec<T> = filled(n, w0);
    for i in 0..n
        invariant
            n == x@.len() == y@.len(),
            (w0, w1) == memory(a@, x@, i as int),
            forall|k: int|
                n - i <= k < n ==> #[trigger] y@[k] == passed(a@, b@, x@).reverse()[k],
    {
        let wt: T = x[i].plus(a[0].times(w0)).plus(a[1].times(w1));
        y[n - i - 1] = b[0].times(wt).plus(b[1].times(w0)).plus(b[0].times(w1));
        w1 = w0;
        w0 = wt;
    }
    assert(y@ =~= passed(a@, b@, x@).reverse());
    y
}

/// Holds the ends of the section from `st` to `ed` and sends the whole through
/// the filter in both directions.
pub fn filtering_f0<T: Scalar>(
    a: &[T; 2],
    b: &[T; 2],
    x: &mut Vec<T>,
    st: usize,
    ed: usize,
) -> (y: Vec<T>)
    requires
        st <= ed < old(x)@.len(),
    ensures
        final(x)@ == held(old(x)@, st as int, ed as int),
        y@ == both_ways(a@, b@, held(old(x)@, st as int, ed as int)),
{
    let ghost before = x@;
    let x_length: usize = x.len();
    for i in 0..st
        invariant
            st <= ed < x_length == before.len() == x@.len(),
            forall|k: int|
                0 <= k < before.len() ==> #[trigger] x@[k] == if k < i {
                    before[st as int]
                } else {
                    before[k]
                },
    {
        x[i] = x[st];
    }
    for i in ed + 1..x_length
        invariant
            st <= ed < x_length == before.len() == x@.len(),
            forall|k: int|
                0 <= k < before.len() ==> #[trigger] x@[k] == if k < st {
                    before[st as int]
                } else if ed < k < i {
                    before[ed as int]
                } else {
                    before[k]
                },
    {
        x[i] = x[ed];
    }
    assert(x@ =~= held(before, st as int, ed as int));
    let tmp_x: Vec<T> = pass_reversed(a, b, x);
    pass_reversed(a, b, &tmp_x)
}

/// The feedback coefficients of the smoothing filter.
pub open spec fn feedback<T: Scalar>() -> Seq<T> {
    seq![T::of_decimal(17347257688092754, 16), T::of_decimal(-76600660094326412, 17)]
}

/// The feedforward coefficients of the smoothing filter.
pub open spec fn feedforward<T: Scalar>() -> Seq<T> {
    seq![T::of_decimal(78202080334971724, 19), T::of_decimal(15640416066994345, 18)]
}

/// The contour with 300 frames of silence on either side.
pub open spec fn padded<T: Scalar>(f0: Seq<T>) -> Seq<T> {
    repeated(300, zero::<T>()) + f0 + repeated(300, zero::<T>())
}

/// The section of `b` in which frame `p` lies.
pub open spec fn section_at(b: Seq<usize>, p: int) -> int {
    choose|k: int| in_section(b, k, p)
}

/// Section `k` of the contour `f`, smoothed.
pub open spec fn smoothed_section<T: Scalar>(f: Seq<T>, k: int) -> Seq<T> {
    let b = boundaries(f);
    both_ways(
        feedback::<T>(),
        feedforward::<T>(),
        held(channel(f, b, k), b[2 * k] as int, b[2 * k + 1] as int),
    )
}

/// What the smoothing of `f0` leaves of `out`: in each voiced section the
/// smoothed section, elsewhere what was there.
pub open spec fn smoothed<T: Scalar>(f0: Seq<T>, out: Seq<T>) -> Seq<T> {
    let f = padded(f0);
    Seq::new(
        out.len(),
        |p: int|
            if voiced(f, p + 300) {
                smoothed_section(f, section_at(boundaries(f), p + 300))[p + 300]
            } else {
                out[p]
            },
    )
}

/// Whether frame `p` lies in one of the first `n` sections of `b`.
spec fn in_one_of(b: Seq<usize>, n: int, p: int) -> bool {
    exists|k: int| k < n && in_section(b, k, p)
}

proof fn lemma_section_at(b: Seq<usize>, k: int, p: int)
    requires
        ordered_sections(b),
        in_section(b, k, p),
    ensures
        section_at(b, p) == k,
{
    lemma_sections_disjoint(b, k, section_at(b, p), p);
}

/// Law: a frame is smoothed exactly where its frequency is positive; every other
/// frame of the output stays as it was.
pub proof fn law_only_voiced_frames_are_smoothed<T: Scalar>(f0: Seq<T>, out: Seq<T>, p: int)
    requires
        0 <= p < f0.len(),
        f0.len() <= out.len(),
        f0.len() + 600 <= usize::MAX,
    ensures
        voiced(padded(f0), p + 300) <==> zero::<T>() < f0[p],
        !(zero::<T>() < f0[p]) ==> smoothed(f0, out)[p] == out[p],
        zero::<T>() < f0[p] ==> in_section(
            boundaries(padded(f0)),
            section_at(boundaries(padded(f0)), p + 300),
            p + 300,
        ),
{
    let f = padded(f0);
    assert(f[p + 300] == f0[p]);
    law_boundaries_list_sections(f);
    if voiced(f, p + 300) {
        let q = p + 300;
        let k = choose|k: int| in_section(boundaries(f), k, q);
        assert(in_section(boundaries(f), k, q));
    }
}

fn pad<T: Scalar>(f0: &[T]) -> (f: Vec<T>)
    requires
        f0@.len() + 600 <= usize::MAX,
    ensures
        f@ == padded(f0@),
{
    let o: T = nought();
    let mut f: Vec<T> = filled(300, o);
    for i in 0..f0.len()
        invariant
            f@ == padded(f0@).take(300 + i),
    {
        f.push(f0[i]);
    }
    for i in 0..300usize
        invariant
            o == zero::<T>(),
            f@ == padded(f0@).take(300 + f0@.len() as int + i),
    {
        f.push(o);
    }
    assert(padded(f0@).take(600 + f0@.len() as int) =~= padded(f0@));
    f
}

/// Smooths every voiced section of `f0` into `smoothed_f0`.
pub fn smooth_f0_contour<T: Scalar>(f0: &[T], smoothed_f0: &mut Vec<T>)
    requires
        f0@.len() + 600 <= usize::MAX,
    ensures
        final(smoothed_f0)@ == smoothed(f0@, old(smoothed_f0)@),
{
    let ghost before = smoothed_f0@;
    let size: usize = smoothed_f0.len();
    let b: [T; 2] = [
        T::from_decimal(78202080334971724, 19),
        T::from_decimal(15640416066994345, 18),
    ];
    let a: [T; 2] = [
        T::from_decimal(17347257688092754, 16),
        T::from_decimal(-76600660094326412, 17),
    ];
    assert(b@ =~= feedforward::<T>());
    assert(a@ =~= feedback::<T>());
    let lag: usize = 300;
    let f0_contour: Vec<T> = pad(f0);
    let new_len: usize = f0_contour.len();
    let ghost f = f0_contour@;
    let boundary_list: Vec<usize> = get_boundary_list(&f0_contour);
    let number_of_boundaries: usize = boundary_list.len();
    let sections: usize = number_of_boundaries / 2;
    let mut multi_channel_f0: Vec<Vec<T>> = get_multi_channel_f0(&f0_contour, &boundary_list);
    let ghost bs = boundary_list@;
    assert(grid(multi_channel_f0@).len() == sections);
    assert forall|k: int| 0 <= k < sections implies (#[trigger] multi_channel_f0@[k])@ == channel(
        f,
        bs,
        k,
    ) by {
        assert(grid(multi_channel_f0@)[k] == channel(f, bs, k));
    }
    for i in 0..sections
        invariant
            lag == 300,
            size == before.len() == smoothed_f0@.len(),
            a@ == feedback::<T>(),
            b@ == feedforward::<T>(),
            f.len() == new_len,
            bs == boundary_list@,
            bs == boundaries(f),
            number_of_boundaries == bs.len(),
            sections == bs.len() / 2,
            ordered_sections(bs),
            forall|k: int| 0 <= k < bs.len() ==> 0 < #[trigger] bs[k] < f.len() - 1,
            multi_channel_f0@.len() == sections,
            forall|k: int|
                i <= k < sections ==> (#[trigger] multi_channel_f0@[k])@ == channel(f, bs, k),
            forall|p: int|
                0 <= p < size ==> #[trigger] smoothed_f0@[p] == if in_one_of(bs, i as int, p + 300) {
                    smoothed_section(f, section_at(bs, p + 300))[p + 300]
                } else {
                    before[p]
                },
    {
        let st: usize = boundary_list[i * 2];
        let ed: usize = boundary_list[i * 2 + 1];
        assert(bs[2 * i] <= bs[2 * i + 1]);
        assert(multi_channel_f0@[i as int]@ == channel(f, bs, i as int));
        let row: Vec<T> = filtering_f0(&a, &b, &mut multi_channel_f0[i], st, ed);
        assert(row@ == smoothed_section(f, i as int));
        let ghost start = smoothed_f0@;
        for j in st..ed + 1
            invariant
                lag == 300,
                st <= ed < new_len == row@.len(),
                size == start.len() == smoothed_f0@.len(),
                forall|p: int|
                    0 <= p < size ==> #[trigger] smoothed_f0@[p] == if st <= p + 300 < j {
                        row@[p + 300]
                    } else {
                        start[p]
                    },
        {
            if j >= lag && j - lag < size {
                smoothed_f0[j - lag] = row[j];
            }
        }
        assert forall|p: int| 0 <= p < size implies #[trigger] smoothed_f0@[p] == if in_one_of(
            bs,
            i + 1,
            p + 300,
        ) {
            smoothed_section(f, section_at(bs, p + 300))[p + 300]
        } else {
            before[p]
        } by {
            if st <= p + 300 <= ed {
                assert(in_section(bs, i as int, p + 300));
                lemma_section_at(bs, i as int, p + 300);
            } else {
                assert(!in_section(bs, i as int, p + 300));
            }
        }
    }
    assert forall|p: int| 0 <= p < size implies smoothed_f0@[p] == #[trigger] smoothed(
        f0@,
        before,
    )[p] by {
        let q = p + 300;
        if exists|k: int| in_section(bs, k, q) {
            assert(in_one_of(bs, sections as int, q));
            assert(voiced(f, q));
        } else if q < f.len() {
            assert(!voiced(f, q));
        }
    }
    assert(smoothed_f0@ =~= smoothed(f0@, before));
}

} // verus!
