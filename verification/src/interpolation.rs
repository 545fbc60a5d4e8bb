//! Piecewise linear interpolation, extrapolated by the outermost segments.
use crate::basics::{guard, nought, safe_guard, zero};
use crate::scalar::Scalar;
use vstd::prelude::*;

verus! {

/// The segment reached from `from` for query `q`: one further for each next node
/// that is not above `q`.
pub open spec fn advanced<T: Scalar>(x: Seq<T>, q: T, from: int) -> int
    decreases x.len() - from,
{
    if from + 1 < x.len() && x[from + 1] <= q {
        advanced(x, q, from + 1)
    } else {
        from
    }
}

/// The segment reached once the first `k` queries have been looked up. Queries
/// that are not finite are passed over.
pub open spec fn reached<T: Scalar>(x: Seq<T>, xi: Seq<T>, k: int) -> int
    decreases k,
{
    if k <= 0 {
        0
    } else if xi[k - 1].finite() {
        advanced(x, xi[k - 1], reached(x, xi, k - 1))
    } else {
        reached(x, xi, k - 1)
    }
}

/// The value at `q` of the line through nodes `k1 - 1` and `k1`; the value of the
/// first of the two where they coincide.
pub open spec fn on_line<T: Scalar>(x: Seq<T>, y: Seq<T>, k1: int, q: T) -> T {
    let (x0, x1, y0, y1) = (x[k1 - 1], x[k1], y[k1 - 1], y[k1]);
    if (x1 - x0).magnitude() < safe_guard::<T>() {
        y0
    } else {
        y0 + ((q - x0) / (x1 - x0)) * (y1 - y0)
    }
}

/// The upper node of the segment used for query `q` once segment `idx` is
/// reached.
pub open spec fn upper_node<T: Scalar>(x: Seq<T>, q: T, idx: int) -> int {
    if q < x[0] {
        1
    } else if idx >= x.len() - 1 {
        x.len() - 1
    } else {
        idx + 1
    }
}

/// The value at query `k`, zero where the query is not finite.
pub open spec fn interpolated<T: Scalar>(x: Seq<T>, y: Seq<T>, xi: Seq<T>, k: int) -> T {
    if xi[k].finite() {
        on_line(x, y, upper_node(x, xi[k], reached(x, xi, k + 1)), xi[k])
    } else {
        zero::<T>()
    }
}

/// Whether `x` and `y` are the coordinates of at least two nodes.
pub open spec fn nodes<T: Scalar>(x: Seq<T>, y: Seq<T>) -> bool {
    x.len() >= 2 && x.len() == y.len()
}

/// What the lookup of `xi` leaves of `yi`.
pub open spec fn looked_up<T: Scalar>(
    x: Seq<T>,
    y: Seq<T>,
    xi: Seq<T>,
    yi: Seq<T>,
) -> Seq<T> {
    Seq::new(
        yi.len(),
        |k: int|
            if !nodes(x, y) {
                zero::<T>()
            } else if k < xi.len() {
                interpolated(x, y, xi, k)
            } else {
                yi[k]
            },
    )
}

proof fn lemma_advanced<T: Scalar>(x: Seq<T>, q: T, from: int)
    requires
        0 <= from < x.len(),
    ensures
        from <= advanced(x, q, from) < x.len(),
        forall|m: int| from < m <= advanced(x, q, from) ==> #[trigger] x[m] <= q,
        advanced(x, q, from) + 1 < x.len() ==> !(x[advanced(x, q, from) + 1] <= q),
    decreases x.len() - from,
{
    if from + 1 < x.len() && x[from + 1] <= q {
        lemma_advanced(x, q, from + 1);
    }
}

proof fn lemma_reached<T: Scalar>(x: Seq<T>, xi: Seq<T>, k: int)
    requires
        x.len() > 0,
    ensures
        0 <= reached(x, xi, k) < x.len(),
    decreases k,
{
    if k > 0 {
        lemma_reached(x, xi, k - 1);
        lemma_advanced(x, xi[k - 1], reached(x, xi, k - 1));
    }
}

/// Law: the lookup only moves forward, passes only nodes that are not above the
/// query, and stops short of the first that is.
pub proof fn law_lookup_moves_forward<T: Scalar>(x: Seq<T>, xi: Seq<T>, k: int)
    requires
        x.len() > 0,
        0 <= k < xi.len(),
        xi[k].finite(),
    ensures
        0 <= reached(x, xi, k) <= reached(x, xi, k + 1) < x.len(),
        forall|m: int|
            reached(x, xi, k) < m <= reached(x, xi, k + 1) ==> #[trigger] x[m] <= xi[k],
        reached(x, xi, k + 1) + 1 < x.len() ==> !(x[reached(x, xi, k + 1) + 1] <= xi[k]),
{
    lemma_reached(x, xi, k);
    lemma_advanced(x, xi[k], reached(x, xi, k));
}

/// Looks up `xi` on the line through the nodes `(x, y)`; `yi` becomes zero where
/// these are not nodes.
pub fn interp1<T: Scalar>(x: &[T], y: &[T], xi: &[T], yi: &mut Vec<T>)
    ensures
        final(yi)@ == looked_up(x@, y@, xi@, old(yi)@),
{
    let ghost before = yi@;
    let o: T = nought();
    let size: usize = yi.len();
    let n: usize = x.len();
    if n < 2 || n != y.len() {
        for k in 0..size
            invariant
                o == zero::<T>(),
                size == before.len() == yi@.len(),
                forall|m: int| 0 <= m < k ==> #[trigger] yi@[m] == zero::<T>(),
        {
            yi[k] = o;
        }
        assert(yi@ =~= looked_up(x@, y@, xi@, before));
        return;
    }
    let g: T = guard();
    let mut x_idx: usize = 0;
    let count: usize = if xi.len() < size { xi.len() } else { size };
    for k in 0..count
        invariant
            o == zero::<T>(),
            g == safe_guard::<T>(),
            n == x@.len() == y@.len(),
            n >= 2,
            size == before.len() == yi@.len(),
            count <= size,
            count <= xi@.len(),
            x_idx == reached(x@, xi@, k as int),
            x_idx < n,
            forall|m: int|
                0 <= m < size ==> #[trigger] yi@[m] == if m < k {
                    interpolated(x@, y@, xi@, m)
                } else {
                    before[m]
                },
    {
        let q: T = xi[k];
        if !q.is_finite() {
            yi[k] = o;
        } else {
            proof {
                lemma_advanced(x@, q, x_idx as int);
            }
            let ghost target = advanced(x@, q, x_idx as int);
            while x_idx + 1 < n && x[x_idx + 1].at_most(q)
                invariant
                    n == x@.len(),
                    x_idx < n,
                    advanced(x@, q, x_idx as int) == target,
                decreases n - x_idx,
            {
                x_idx = x_idx + 1;
            }
            let k1: usize = if q.less(x[0]) {
                1
            } else if x_idx >= n - 1 {
                n - 1
            } else {
                x_idx + 1
            };
            let k0: usize = k1 - 1;
            let x0: T = x[k0];
            let x1: T = x[k1];
            let y0: T = y[k0];
            let y1: T = y[k1];
            if x1.minus(x0).abs().less(g) {
                yi[k] = y0;
            } else {
                let s: T = q.minus(x0).over(x1.minus(x0));
                yi[k] = y0.plus(s.times(y1.minus(y0)));
            }
        }
    }
    assert(yi@ =~= looked_up(x@, y@, xi@, before));
}

} // verus!
