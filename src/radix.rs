//! Mixed-radix numbering of the cells of a box, and the odometer that walks
//! such a box one cell at a time.
use vstd::prelude::*;

verus! {

/// Product of the first `k` radices.
pub open spec fn radix_prod(r: Seq<int>, k: int) -> int
    decreases k,
{
    if k <= 0 {
        1
    } else {
        radix_prod(r, k - 1) * r[k - 1]
    }
}

/// Mixed-radix number of the first `k` digits of `v`, digit 0 the least
/// significant.
pub open spec fn mixed(v: Seq<int>, r: Seq<int>, k: int) -> int
    decreases k,
{
    if k <= 0 {
        0
    } else {
        mixed(v, r, k - 1) + v[k - 1] * radix_prod(r, k - 1)
    }
}

/// The first `k` digits of `v` lie in `[0, r[i])`.
pub open spec fn digits_in_range(v: Seq<int>, r: Seq<int>, k: int) -> bool {
    forall|i: int| 0 <= i < k ==> 0 <= #[trigger] v[i] < r[i]
}

pub open spec fn radices_positive(r: Seq<int>, k: int) -> bool {
    forall|i: int| 0 <= i < k ==> #[trigger] r[i] >= 1
}

pub proof fn lemma_radix_prod_positive(r: Seq<int>, k: int)
    requires
        0 <= k <= r.len(),
        radices_positive(r, k),
    ensures
        radix_prod(r, k) >= 1,
    decreases k,
{
    if k > 0 {
        lemma_radix_prod_positive(r, k - 1);
        let p = radix_prod(r, k - 1);
        let x = r[k - 1];
        assert(p * x >= 1) by (nonlinear_arith)
            requires
                p >= 1,
                x >= 1,
        ;
    }
}

pub proof fn lemma_radix_prod_mono(r: Seq<int>, j: int, k: int)
    requires
        0 <= j <= k <= r.len(),
        radices_positive(r, k),
    ensures
        radix_prod(r, j) <= radix_prod(r, k),
    decreases k,
{
    if j < k {
        lemma_radix_prod_mono(r, j, k - 1);
        lemma_radix_prod_positive(r, k - 1);
        let p = radix_prod(r, k - 1);
        let x = r[k - 1];
        assert(p <= p * x) by (nonlinear_arith)
            requires
                p >= 1,
                x >= 1,
        ;
    }
}

/// A number whose digits are in range is below the product of the radices.
pub proof fn lemma_mixed_bound(v: Seq<int>, r: Seq<int>, k: int)
    requires
        0 <= k <= r.len(),
        k <= v.len(),
        radices_positive(r, k),
        digits_in_range(v, r, k),
    ensures
        0 <= mixed(v, r, k) < radix_prod(r, k),
    decreases k,
{
    if k > 0 {
        lemma_mixed_bound(v, r, k - 1);
        lemma_radix_prod_positive(r, k - 1);
        let m = mixed(v, r, k - 1);
        let p = radix_prod(r, k - 1);
        let d = v[k - 1];
        let x = r[k - 1];
        assert(0 <= m + d * p < p * x) by (nonlinear_arith)
            requires
                0 <= m < p,
                0 <= d < x,
        ;
    }
}

/// Two numbers whose digits are in range are equal only if their digits are.
pub proof fn lemma_mixed_injective(u: Seq<int>, v: Seq<int>, r: Seq<int>, k: int)
    requires
        0 <= k <= r.len(),
        k <= u.len(),
        k <= v.len(),
        radices_positive(r, k),
        digits_in_range(u, r, k),
        digits_in_range(v, r, k),
        mixed(u, r, k) == mixed(v, r, k),
    ensures
        forall|i: int| 0 <= i < k ==> u[i] == v[i],
    decreases k,
{
    if k > 0 {
        lemma_mixed_bound(u, r, k - 1);
        lemma_mixed_bound(v, r, k - 1);
        let mu = mixed(u, r, k - 1);
        let mv = mixed(v, r, k - 1);
        let p = radix_prod(r, k - 1);
        let du = u[k - 1];
        let dv = v[k - 1];
        assert(du == dv && mu == mv) by (nonlinear_arith)
            requires
                0 <= mu < p,
                0 <= mv < p,
                mu + du * p == mv + dv * p,
        ;
        lemma_mixed_injective(u, v, r, k - 1);
    }
}

/// Two numbers whose digits agree from `j` to `k` differ by what their
/// first `j` digits differ by.
pub proof fn lemma_mixed_frame(u: Seq<int>, v: Seq<int>, r: Seq<int>, j: int, k: int)
    requires
        0 <= j <= k,
        forall|i: int| j <= i < k ==> u[i] == v[i],
    ensures
        mixed(u, r, k) - mixed(v, r, k) == mixed(u, r, j) - mixed(v, r, j),
    decreases k,
{
    if k > j {
        lemma_mixed_frame(u, v, r, j, k - 1);
    }
}

/// The number whose first `k` digits are all the largest is one below the
/// product of the radices.
pub proof fn lemma_mixed_all_top(v: Seq<int>, r: Seq<int>, k: int)
    requires
        0 <= k,
        forall|i: int| 0 <= i < k ==> #[trigger] v[i] == r[i] - 1,
    ensures
        mixed(v, r, k) == radix_prod(r, k) - 1,
    decreases k,
{
    if k > 0 {
        lemma_mixed_all_top(v, r, k - 1);
        let p = radix_prod(r, k - 1);
        let x = r[k - 1];
        assert((p - 1) + (x - 1) * p == p * x - 1) by (nonlinear_arith);
    }
}

pub proof fn lemma_mixed_all_zero(v: Seq<int>, r: Seq<int>, k: int)
    requires
        0 <= k,
        forall|i: int| 0 <= i < k ==> #[trigger] v[i] == 0,
    ensures
        mixed(v, r, k) == 0,
    decreases k,
{
    if k > 0 {
        lemma_mixed_all_zero(v, r, k - 1);
    }
}

/// `v` lies in the box with corners `lo` and `hi`, both included.
pub open spec fn in_box(v: Seq<usize>, lo: Seq<usize>, hi: Seq<usize>) -> bool {
    &&& v.len() == lo.len()
    &&& hi.len() == lo.len()
    &&& forall|i: int| 0 <= i < v.len() ==> lo[i] <= #[trigger] v[i] <= hi[i]
}

/// The box is not empty.
pub open spec fn box_ok(lo: Seq<usize>, hi: Seq<usize>) -> bool {
    &&& hi.len() == lo.len()
    &&& forall|i: int| 0 <= i < lo.len() ==> #[trigger] lo[i] <= hi[i]
}

pub open spec fn box_offsets(v: Seq<usize>, lo: Seq<usize>) -> Seq<int> {
    Seq::new(v.len(), |i: int| v[i] - lo[i])
}

pub open spec fn box_widths(lo: Seq<usize>, hi: Seq<usize>) -> Seq<int> {
    Seq::new(lo.len(), |i: int| hi[i] - lo[i] + 1)
}

/// Position of `v` in the order in which the odometer walks the box.
pub open spec fn box_rank(v: Seq<usize>, lo: Seq<usize>, hi: Seq<usize>) -> int {
    mixed(box_offsets(v, lo), box_widths(lo, hi), lo.len() as int)
}

/// Number of cells in the box.
pub open spec fn box_size(lo: Seq<usize>, hi: Seq<usize>) -> int {
    radix_prod(box_widths(lo, hi), lo.len() as int)
}

/// Every cell of the box has a rank below the box's size, and no two cells
/// share one.
pub proof fn lemma_box_rank(v: Seq<usize>, lo: Seq<usize>, hi: Seq<usize>)
    requires
        box_ok(lo, hi),
        in_box(v, lo, hi),
    ensures
        0 <= box_rank(v, lo, hi) < box_size(lo, hi),
{
    lemma_mixed_bound(box_offsets(v, lo), box_widths(lo, hi), lo.len() as int);
}

pub proof fn lemma_box_rank_injective(u: Seq<usize>, v: Seq<usize>, lo: Seq<usize>, hi: Seq<usize>)
    requires
        box_ok(lo, hi),
        in_box(u, lo, hi),
        in_box(v, lo, hi),
        box_rank(u, lo, hi) == box_rank(v, lo, hi),
    ensures
        u == v,
{
    let n = lo.len() as int;
    let (ou, ov) = (box_offsets(u, lo), box_offsets(v, lo));
    lemma_mixed_injective(ou, ov, box_widths(lo, hi), n);
    assert forall|i: int| 0 <= i < n implies u[i] == v[i] by {
        assert(ou[i] == ov[i]);
    }
    assert(u =~= v);
}

/// Moves `indices` to the next cell of the box `[min_cell, max_cell]`:
/// axis 0 counts up, and an axis that passes its upper corner goes back to
/// its lower one and carries into the next axis. Returns false, with
/// `indices` back at the lower corner, when `indices` was the last cell.
pub fn advance(indices: &mut Vec<usize>, min_cell: &Vec<usize>, max_cell: &Vec<usize>) -> (r: bool)
    requires
        box_ok(min_cell@, max_cell@),
        in_box(old(indices)@, min_cell@, max_cell@),
    ensures
        in_box(final(indices)@, min_cell@, max_cell@),
        r ==> box_rank(final(indices)@, min_cell@, max_cell@) == box_rank(old(indices)@, min_cell@, max_cell@) + 1,
        !r ==> box_rank(old(indices)@, min_cell@, max_cell@) + 1 == box_size(min_cell@, max_cell@),
        !r ==> final(indices)@ == min_cell@,
{
    let n = indices.len();
    let ghost lo = min_cell@;
    let ghost hi = max_cell@;
    let ghost w = box_widths(lo, hi);
    let ghost start = indices@;
    let mut i: usize = 0;
    while i < n
        invariant
            0 <= i <= n,
            n == indices@.len(),
            box_ok(lo, hi),
            lo == min_cell@,
            hi == max_cell@,
            w == box_widths(lo, hi),
            in_box(start, lo, hi),
            in_box(indices@, lo, hi),
            forall|k: int| i <= k < n ==> #[trigger] indices@[k] == start[k],
            start.len() == n,
            start == old(indices)@,
            forall|k: int| 0 <= k < i ==> #[trigger] indices@[k] == lo[k],
            forall|k: int| 0 <= k < i ==> #[trigger] start[k] == hi[k],
        decreases n - i,
    {
        if indices[i] == max_cell[i] {
            indices.set(i, min_cell[i]);
            i = i + 1;
        } else {
            indices.set(i, indices[i] + 1);
            proof {
                let os = box_offsets(start, lo);
                let on = box_offsets(indices@, lo);
                let ii = i as int;
                assert forall|k: int| 0 <= k < ii implies #[trigger] os[k] == w[k] - 1 by {
                    assert(start[k] == hi[k]);
                }
                assert forall|k: int| 0 <= k < ii implies #[trigger] on[k] == 0 by {
                    assert(indices@[k] == lo[k]);
                }
                lemma_mixed_all_top(os, w, ii);
                lemma_mixed_all_zero(on, w, ii);
                let p = radix_prod(w, ii);
                let d = os[ii];
                assert(on[ii] == d + 1);
                assert((d + 1) * p == (p - 1) + d * p + 1) by (nonlinear_arith);
                assert(mixed(on, w, ii + 1) == mixed(os, w, ii + 1) + 1);
                assert forall|k: int| ii + 1 <= k < n implies on[k] == os[k] by {
                    assert(indices@[k] == start[k]);
                }
                lemma_mixed_frame(on, os, w, ii + 1, n as int);
            }
            return true;
        }
    }
    proof {
        let os = box_offsets(start, lo);
        assert forall|k: int| 0 <= k < n implies #[trigger] os[k] == w[k] - 1 by {
            assert(start[k] == hi[k]);
        }
        lemma_mixed_all_top(os, w, n as int);
        assert(indices@ =~= lo);
    }
    false
}

} // verus!
