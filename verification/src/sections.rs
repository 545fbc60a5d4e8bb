//! Voiced sections of a contour: the maximal runs of frames with a positive
//! frequency. The first and the last frame never count as voiced.
use crate::basics::{filled, grid, nought, zero};
use crate::scalar::Scalar;
use vstd::prelude::*;

verus! {

/// Whether frame `p` counts as voiced.
pub open spec fn voiced<T: Scalar>(f0: Seq<T>, p: int) -> bool {
    0 < p < f0.len() - 1 && zero::<T>() < f0[p]
}

/// The boundaries found among the frames before `i`: where voicing starts, the
/// first voiced frame; where it ends, the last one.
pub open spec fn boundaries_upto<T: Scalar>(f0: Seq<T>, i: int) -> Seq<usize>
    decreases i,
{
    if i <= 1 {
        Seq::empty()
    } else {
        let b = boundaries_upto(f0, i - 1);
        if voiced(f0, i - 1) == voiced(f0, i - 2) {
            b
        } else {
            b.push((i - 1 - b.len() % 2) as usize)
        }
    }
}

/// First and last frame of each voiced section, in order.
pub open spec fn boundaries<T: Scalar>(f0: Seq<T>) -> Seq<usize> {
    boundaries_upto(f0, f0.len() as int)
}

/// Whether frame `p` lies in section `k` of the list `b`.
pub open spec fn in_section(b: Seq<usize>, k: int, p: int) -> bool {
    0 <= k < b.len() / 2 && b[2 * k] <= p <= b[2 * k + 1]
}

/// `b` holds sections in increasing order, with a gap between any two.
pub open spec fn ordered_sections(b: Seq<usize>) -> bool {
    &&& b.len() % 2 == 0
    &&& forall|k: int, l: int| 0 <= k <= l < b.len() ==> #[trigger] b[k] <= #[trigger] b[l]
    &&& forall|k: int, l: int|
        0 <= k < l < b.len() && k / 2 < l / 2 ==> #[trigger] b[k] + 1 < #[trigger] b[l]
}

/// `b` lists the voiced sections of `f0`.
pub open spec fn lists_sections<T: Scalar>(f0: Seq<T>, b: Seq<usize>) -> bool {
    &&& ordered_sections(b)
    &&& forall|k: int| 0 <= k < b.len() ==> 0 < #[trigger] b[k] < f0.len() - 1
    &&& forall|p: int|
        0 <= p < f0.len() ==> (#[trigger] voiced(f0, p) <==> exists|k: int| in_section(b, k, p))
}

/// Whether frame `p` lies in a section of `b`, the last one being open if `b`
/// has an odd length.
spec fn covered(b: Seq<usize>, k: int, p: int) -> bool {
    0 <= 2 * k < b.len() && b[2 * k] <= p && (2 * k + 1 < b.len() ==> p <= b[2 * k + 1])
}

spec fn lists_upto<T: Scalar>(f0: Seq<T>, b: Seq<usize>, i: int) -> bool {
    &&& b.len() % 2 == 1 <==> voiced(f0, i - 1)
    &&& b.len() < i
    &&& forall|k: int| 0 <= k < b.len() ==> 0 < #[trigger] b[k] < i
    &&& forall|k: int, l: int| 0 <= k <= l < b.len() ==> #[trigger] b[k] <= #[trigger] b[l]
    &&& forall|k: int, l: int|
        0 <= k < l < b.len() && k / 2 < l / 2 ==> #[trigger] b[k] + 1 < #[trigger] b[l]
    &&& b.len() % 2 == 0 && b.len() > 0 ==> b.last() + 1 < i
    &&& forall|p: int|
        0 <= p < i ==> (#[trigger] voiced(f0, p) <==> exists|k: int| covered(b, k, p))
}

proof fn lemma_lists_upto<T: Scalar>(f0: Seq<T>, i: int)
    requires
        1 <= i <= f0.len() <= usize::MAX,
    ensures
        lists_upto(f0, boundaries_upto(f0, i), i),
    decreases i,
{
    let b = boundaries_upto(f0, i);
    if i == 1 {
        assert(!voiced(f0, 0));
        assert forall|p: int| 0 <= p < i implies (#[trigger] voiced(f0, p) <==> exists|k: int|
            covered(b, k, p)) by {}
    } else {
        lemma_lists_upto(f0, i - 1);
        let a = boundaries_upto(f0, i - 1);
        let q = i - 1;
        if voiced(f0, q) == voiced(f0, q - 1) {
            assert(b == a);
            assert forall|p: int| 0 <= p < i implies (#[trigger] voiced(f0, p) <==> exists|k: int|
                covered(b, k, p)) by {
                if p == q {
                    if voiced(f0, q) {
                        assert(covered(b, (b.len() - 1) / 2, q));
                    } else if exists|k: int| covered(b, k, q) {
                        let k = choose|k: int| covered(b, k, q);
                        assert(b[2 * k + 1] <= b.last());
                        assert(false);
                    }
                }
            }
        } else if voiced(f0, q) {
            assert(b == a.push(q as usize));
            assert forall|p: int| 0 <= p < i implies (#[trigger] voiced(f0, p) <==> exists|k: int|
                covered(b, k, p)) by {
                if p == q {
                    assert(covered(b, a.len() as int / 2, q));
                } else {
                    if exists|k: int| covered(b, k, p) {
                        let k = choose|k: int| covered(b, k, p);
                        assert(covered(a, k, p));
                    }
                    if exists|k: int| covered(a, k, p) {
                        let k = choose|k: int| covered(a, k, p);
                        assert(covered(b, k, p));
                    }
                }
            }
        } else {
            assert(b == a.push((q - 1) as usize));
            assert forall|p: int| 0 <= p < i implies (#[trigger] voiced(f0, p) <==> exists|k: int|
                covered(b, k, p)) by {
                if p == q {
                    if exists|k: int| covered(b, k, q) {
                        let k = choose|k: int| covered(b, k, q);
                        assert(b[2 * k + 1] <= b.last());
                        assert(false);
                    }
                } else {
                    if exists|k: int| covered(b, k, p) {
                        let k = choose|k: int| covered(b, k, p);
                        assert(covered(a, k, p));
                    }
                    if exists|k: int| covered(a, k, p) {
                        let k = choose|k: int| covered(a, k, p);
                        assert(covered(b, k, p));
                    }
                }
            }
        }
    }
}

/// Law: the boundary list consists of whole sections, each the first and the
/// last frame of a maximal run of voiced frames; the sections come in order,
/// and every voiced frame lies in one of them.
pub proof fn law_boundaries_list_sections<T: Scalar>(f0: Seq<T>)
    requires
        f0.len() <= usize::MAX,
    ensures
        lists_sections(f0, boundaries(f0)),
        boundaries(f0).len() <= f0.len(),
{
    let b = boundaries(f0);
    if f0.len() > 0 {
        let n = f0.len() as int;
        lemma_lists_upto(f0, n);
        assert(!voiced(f0, n - 1));
        assert forall|k: int| 0 <= k < b.len() implies 0 < #[trigger] b[k] < n - 1 by {
            assert(b[k] <= b.last());
        }
        assert forall|p: int| 0 <= p < n implies (#[trigger] voiced(f0, p) <==> exists|k: int|
            in_section(b, k, p)) by {
            if exists|k: int| covered(b, k, p) {
                let k = choose|k: int| covered(b, k, p);
                assert(in_section(b, k, p));
            }
            if exists|k: int| in_section(b, k, p) {
                let k = choose|k: int| in_section(b, k, p);
                assert(covered(b, k, p));
            }
        }
    }
}

/// No frame lies in two sections.
pub proof fn lemma_sections_disjoint(b: Seq<usize>, k: int, l: int, p: int)
    requires
        ordered_sections(b),
        in_section(b, k, p),
        in_section(b, l, p),
    ensures
        k == l,
{
    if l < k {
        assert(b[2 * l + 1] + 1 < b[2 * k]);
    } else if k < l {
        assert(b[2 * k + 1] + 1 < b[2 * l]);
    }
}

/// A run of voiced frames lies within the section of any of them.
pub proof fn lemma_run_within_section<T: Scalar>(
    f0: Seq<T>,
    b: Seq<usize>,
    k: int,
    s: int,
    first: int,
    last: int,
)
    requires
        lists_sections(f0, b),
        in_section(b, k, s),
        0 <= first <= s <= last < f0.len(),
        forall|p: int| first <= p <= last ==> #[trigger] voiced(f0, p),
    ensures
        b[2 * k] <= first,
        last <= b[2 * k + 1],
{
    if first < b[2 * k] {
        let p = b[2 * k] - 1;
        assert(voiced(f0, p));
        let m = choose|m: int| in_section(b, m, p);
        if m < k {
            assert(b[2 * m + 1] + 1 < b[2 * k]);
        } else {
            assert(b[2 * k] <= b[2 * m]);
        }
    }
    if b[2 * k + 1] < last {
        let p = b[2 * k + 1] + 1;
        assert(voiced(f0, p));
        let m = choose|m: int| in_section(b, m, p);
        if m > k {
            assert(b[2 * k + 1] + 1 < b[2 * m]);
        } else {
            assert(b[2 * m + 1] <= b[2 * k + 1]);
        }
    }
}

/// The boundaries of the voiced sections of `f0`.
pub fn get_boundary_list<T: Scalar>(f0: &[T]) -> (b: Vec<usize>)
    ensures
        b@ == boundaries(f0@),
        lists_sections(f0@, b@),
{
    let n: usize = f0.len();
    proof {
        law_boundaries_list_sections(f0@);
    }
    let mut b: Vec<usize> = Vec::new();
    if n < 2 {
        return b;
    }
    let o: T = nought();
    let mut vuv: Vec<bool> = filled(n, false);
    for i in 0..n
        invariant
            n == f0@.len(),
            o == zero::<T>(),
            vuv@.len() == n,
            forall|p: int| 0 <= p < i ==> #[trigger] vuv@[p] == (zero::<T>() < f0@[p]),
    {
        vuv[i] = o.less(f0[i]);
    }
    vuv[0] = false;
    vuv[n - 1] = false;
    assert(forall|p: int| 0 <= p < n ==> #[trigger] vuv@[p] == voiced(f0@, p));
    for i in 1..n
        invariant
            n == f0@.len(),
            n >= 2,
            vuv@.len() == n,
            forall|p: int| 0 <= p < n ==> #[trigger] vuv@[p] == voiced(f0@, p),
            b@ == boundaries_upto(f0@, i as int),
    {
        if vuv[i] != vuv[i - 1] {
            let offset: usize = b.len() % 2;
            b.push(i - offset);
        }
    }
    b
}

/// `f0` on section `k` of `b`, zero elsewhere.
pub open spec fn channel<T: Scalar>(f0: Seq<T>, b: Seq<usize>, k: int) -> Seq<T> {
    Seq::new(f0.len(), |p: int| if in_section(b, k, p) { f0[p] } else { zero::<T>() })
}

/// One channel for each section of `b`.
pub open spec fn channels<T: Scalar>(f0: Seq<T>, b: Seq<usize>) -> Seq<Seq<T>> {
    Seq::new(b.len() / 2, |k: int| channel(f0, b, k))
}

/// Splits `f0` into one contour for each section.
pub fn get_multi_channel_f0<T: Scalar>(f0: &[T], boundary_list: &[usize]) -> (multi: Vec<Vec<T>>)
    ensures
        grid(multi@) == channels(f0@, boundary_list@),
{
    let number_of_boundaries: usize = boundary_list.len();
    let sections: usize = number_of_boundaries / 2;
    let o: T = nought();
    let mut multi: Vec<Vec<T>> = Vec::new();
    for i in 0..sections
        invariant
            sections == boundary_list@.len() / 2,
            boundary_list@.len() == number_of_boundaries,
            o == zero::<T>(),
            multi@.len() == i,
            forall|k: int|
                0 <= k < i ==> (#[trigger] multi@[k])@ == channel(f0@, boundary_list@, k),
    {
        let st: usize = boundary_list[i * 2];
        let ed: usize = boundary_list[i * 2 + 1];
        let mut row: Vec<T> = Vec::with_capacity(f0.len());
        for j in 0..f0.len()
            invariant
                o == zero::<T>(),
                0 <= i < boundary_list@.len() / 2,
                st == boundary_list@[i * 2],
                ed == boundary_list@[i * 2 + 1],
                row@ == channel(f0@, boundary_list@, i as int).take(j as int),
        {
            row.push(if st <= j && j <= ed { f0[j] } else { o });
        }
        multi.push(row);
    }
    assert(grid(multi@) =~= channels(f0@, boundary_list@));
    multi
}

} // verus!
