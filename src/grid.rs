//! The background grid: a uniform spatial hash over the domain that answers
//! "is any sample closer than the minimum distance?" by looking at a bounded
//! window of cells only.
use vstd::prelude::*;
use crate::cells::{
    cell_count_of, cell_index, cell_reach, count_of, index_of, lemma_cell_in_grid, lemma_near_cells,
    lemma_same_cell, reach_of,
};
use crate::radix::{
    advance, box_ok, box_rank, box_size, in_box, lemma_box_rank, lemma_box_rank_injective,
    lemma_mixed_bound, lemma_mixed_injective, lemma_radix_prod_mono, lemma_radix_prod_positive,
    mixed, radix_prod,
    radices_positive, digits_in_range,
};

verus! {

/// Sum of the squared coordinate differences over the first `k` axes.
pub open spec fn sum_sq(x: Seq<i64>, y: Seq<i64>, k: int) -> int
    decreases k,
{
    if k <= 0 {
        0
    } else {
        sum_sq(x, y, k - 1) + (x[k - 1] - y[k - 1]) * (x[k - 1] - y[k - 1])
    }
}

/// Squared Euclidean distance of two points.
pub open spec fn dist_sqr(x: Seq<i64>, y: Seq<i64>) -> int {
    sum_sq(x, y, x.len() as int)
}

/// Every coordinate is no larger than `u32::MAX` in magnitude, and there
/// are at most 2^61 of them.
pub open spec fn coords_bounded(x: Seq<i64>) -> bool {
    &&& x.len() <= 0x2000_0000_0000_0000
    &&& forall|i: int| 0 <= i < x.len() ==> -0xffff_ffff <= #[trigger] x[i] <= 0xffff_ffff
}

/// `p` lies in the half-open box `[0, extent)` on every axis.
pub open spec fn in_domain(p: Seq<i64>, extents: Seq<u32>) -> bool {
    &&& p.len() == extents.len()
    &&& forall|i: int| 0 <= i < p.len() ==> 0 <= #[trigger] p[i] < extents[i]
}

/// Some sample of the store is closer than `min_distance` to `p`.
pub open spec fn conflicts(p: Seq<i64>, samples: Seq<Vec<i64>>, min_distance: int) -> bool {
    exists|j: int|
        0 <= j < samples.len() && dist_sqr(p, #[trigger] samples[j]@) < min_distance * min_distance
}

/// Number of cells along each axis.
pub open spec fn cell_counts(extents: Seq<u32>, m: int) -> Seq<int> {
    Seq::new(extents.len(), |i: int| cell_count_of(extents[i] as int, m, extents.len() as int))
}

/// The cell that holds `p`, axis by axis.
pub open spec fn cell_of(p: Seq<i64>, m: int, d: int) -> Seq<int> {
    Seq::new(p.len(), |i: int| cell_index(p[i] as int, m, d))
}

pub open spec fn as_ints(v: Seq<usize>) -> Seq<int> {
    Seq::new(v.len(), |i: int| v[i] as int)
}

pub proof fn lemma_sum_sq_nonneg(x: Seq<i64>, y: Seq<i64>, k: int)
    ensures
        sum_sq(x, y, k) >= 0,
    decreases k,
{
    if k > 0 {
        lemma_sum_sq_nonneg(x, y, k - 1);
        let d = x[k - 1] - y[k - 1];
        assert(d * d >= 0) by (nonlinear_arith);
    }
}

pub proof fn lemma_sum_sq_symmetric(x: Seq<i64>, y: Seq<i64>, k: int)
    ensures
        sum_sq(x, y, k) == sum_sq(y, x, k),
    decreases k,
{
    if k > 0 {
        lemma_sum_sq_symmetric(x, y, k - 1);
        let d = x[k - 1] - y[k - 1];
        assert(d * d == (-d) * (-d)) by (nonlinear_arith);
    }
}

/// One axis alone is no farther than all of them together.
pub proof fn lemma_sum_sq_axis(x: Seq<i64>, y: Seq<i64>, k: int, i: int)
    requires
        0 <= i < k,
    ensures
        (x[i] - y[i]) * (x[i] - y[i]) <= sum_sq(x, y, k),
    decreases k,
{
    lemma_sum_sq_nonneg(x, y, k - 1);
    if i < k - 1 {
        lemma_sum_sq_axis(x, y, k - 1, i);
        let d = x[k - 1] - y[k - 1];
        assert(d * d >= 0) by (nonlinear_arith);
    }
}

/// Points whose every axis differs by less than `m / sqrt(d)` are closer
/// than `m`, summed over `k` axes.
pub proof fn lemma_sum_sq_scaled(x: Seq<i64>, y: Seq<i64>, k: int, m: int, d: int)
    requires
        0 <= k,
        d >= 1,
        forall|i: int| 0 <= i < k ==> d * (#[trigger] x[i] - y[i]) * (x[i] - y[i]) < m * m,
    ensures
        d * sum_sq(x, y, k) <= k * (m * m - 1),
    decreases k,
{
    if k > 0 {
        lemma_sum_sq_scaled(x, y, k - 1, m, d);
        let e = x[k - 1] - y[k - 1];
        assert(d * (x[k - 1] - y[k - 1]) * (x[k - 1] - y[k - 1]) < m * m);
        assert(d * (sum_sq(x, y, k - 1) + e * e) == d * sum_sq(x, y, k - 1) + d * e * e) by (nonlinear_arith);
        assert((k - 1) * (m * m - 1) + (m * m - 1) == k * (m * m - 1)) by (nonlinear_arith);
        assert(sum_sq(x, y, k) == sum_sq(x, y, k - 1) + e * e);
        assert(d * e * e <= m * m - 1);
        assert(d * sum_sq(x, y, k) <= k * (m * m - 1));
    } else {
        assert(d * 0 <= 0 * (m * m - 1)) by (nonlinear_arith);
    }
}

/// Number of occupied cells.
pub open spec fn occupied(cells: Seq<usize>) -> int
    decreases cells.len(),
{
    if cells.len() == 0 {
        0
    } else {
        occupied(cells.drop_last()) + if cells.last() != 0 {
            1int
        } else {
            0int
        }
    }
}

pub proof fn lemma_occupied_bound(cells: Seq<usize>)
    ensures
        0 <= occupied(cells) <= cells.len(),
    decreases cells.len(),
{
    if cells.len() > 0 {
        lemma_occupied_bound(cells.drop_last());
    }
}

pub proof fn lemma_occupied_empty(cells: Seq<usize>)
    requires
        forall|i: int| 0 <= i < cells.len() ==> #[trigger] cells[i] == 0,
    ensures
        occupied(cells) == 0,
    decreases cells.len(),
{
    if cells.len() > 0 {
        lemma_occupied_empty(cells.drop_last());
    }
}

/// Filling an empty cell adds one to the count.
pub proof fn lemma_occupied_fill(cells: Seq<usize>, i: int, v: usize)
    requires
        0 <= i < cells.len(),
        cells[i] == 0,
        v != 0,
    ensures
        occupied(cells.update(i, v)) == occupied(cells) + 1,
    decreases cells.len(),
{
    let u = cells.update(i, v);
    if i == cells.len() - 1 {
        assert(u.drop_last() =~= cells.drop_last());
    } else {
        assert(u.drop_last() =~= cells.drop_last().update(i, v));
        lemma_occupied_fill(cells.drop_last(), i, v);
    }
}

/// A point lies at distance zero from itself.
pub proof fn lemma_dist_self(p: Seq<i64>)
    ensures
        dist_sqr(p, p) == 0,
{
    lemma_sum_sq_same_zero(p, p.len() as int);
}

proof fn lemma_sum_sq_same_zero(p: Seq<i64>, k: int)
    ensures
        sum_sq(p, p, k) == 0,
    decreases k,
{
    if k > 0 {
        lemma_sum_sq_same_zero(p, k - 1);
    }
}

/// A point that the store already holds conflicts with it: inserting the
/// same point a second time is always rejected, for the distance.
pub proof fn lemma_reinsert_rejected(p: Seq<i64>, samples: Seq<Vec<i64>>, j: int, min_distance: int)
    requires
        0 <= j < samples.len(),
        samples[j]@ == p,
        min_distance >= 1,
    ensures
        conflicts(p, samples, min_distance),
{
    lemma_dist_self(p);
    assert(dist_sqr(p, samples[j]@) < min_distance * min_distance) by (nonlinear_arith)
        requires
            dist_sqr(p, samples[j]@) == 0,
            min_distance >= 1,
    ;
}

/// A coordinate equal to its axis' extent lies outside the domain; a
/// coordinate of 0 lies inside, whatever the other axes hold.
pub proof fn lemma_boundary(p: Seq<i64>, extents: Seq<u32>, i: int)
    requires
        p.len() == extents.len(),
        0 <= i < p.len(),
    ensures
        p[i] == extents[i] ==> !in_domain(p, extents),
        extents[i] >= 1 ==> (in_domain(p.update(i, 0), extents) <==> forall|k: int|
            0 <= k < p.len() && k != i ==> 0 <= #[trigger] p[k] < extents[k]),
{
    let q = p.update(i, 0);
    if extents[i] >= 1 {
        if forall|k: int| 0 <= k < p.len() && k != i ==> 0 <= #[trigger] p[k] < extents[k] {
            assert forall|k: int| 0 <= k < q.len() implies 0 <= #[trigger] q[k] < extents[k] by {
                if k != i {
                    assert(q[k] == p[k]);
                }
            }
        }
        if in_domain(q, extents) {
            assert forall|k: int| 0 <= k < p.len() && k != i implies 0 <= #[trigger] p[k] < extents[k] by {
                assert(q[k] == p[k]);
            }
        }
    }
}

/// Squared distance, computed exactly.
pub fn dst_sqr(x: &Vec<i64>, y: &Vec<i64>) -> (r: u128)
    requires
        x@.len() == y@.len(),
        coords_bounded(x@),
        coords_bounded(y@),
    ensures
        r == dist_sqr(x@, y@),
{
    let mut accu: u128 = 0;
    let mut i: usize = 0;
    while i < x.len()
        invariant
            0 <= i <= x@.len(),
            x@.len() == y@.len(),
            coords_bounded(x@),
            coords_bounded(y@),
            accu == sum_sq(x@, y@, i as int),
            accu <= i * 0x4_0000_0000_0000_0000,
        decreases x@.len() - i,
    {
        let a = x[i];
        let b = y[i];
        assert(-0xffff_ffff <= a <= 0xffff_ffff);
        assert(-0xffff_ffff <= b <= 0xffff_ffff);
        let diff: i64 = a - b;
        let mag: u128 = if diff < 0 { (-diff) as u128 } else { diff as u128 };
        assert(mag * mag <= 0x4_0000_0000_0000_0000) by (nonlinear_arith)
            requires
                mag <= 0x1_ffff_fffe,
        ;
        assert(mag * mag == (a - b) * (a - b)) by (nonlinear_arith)
            requires
                mag == diff || mag == -diff,
                diff == a - b,
        ;
        assert(i * 0x4_0000_0000_0000_0000 + 0x4_0000_0000_0000_0000 <= 0xffff_ffff_ffff_ffff_ffff_ffff_ffff_ffff) by (nonlinear_arith)
            requires
                i < 0x2000_0000_0000_0000,
        ;
        accu = accu + mag * mag;
        i = i + 1;
    }
    accu
}

/// Why a grid could not be built.
#[derive(Debug, PartialEq, Eq, Structural)]
pub enum GridError {
    /// The minimum distance is zero.
    NonPositiveDistance,
    /// The domain has no axis.
    EmptyDomain,
    /// Some extent of the domain is zero.
    DegenerateExtent,
    /// The cells do not fit in memory addresses.
    TooLarge,
}

/// The cell array of a grid of these extents would not fit in `usize`.
pub open spec fn grid_too_large(extents: Seq<u32>, min_distance: int) -> bool {
    extents.len() > 0x2000_0000_0000_0000 || cell_total(extents, min_distance) > usize::MAX
}

/// Number of cells of a grid over these extents.
pub open spec fn cell_total(extents: Seq<u32>, min_distance: int) -> int {
    radix_prod(cell_counts(extents, min_distance), extents.len() as int)
}

/// What goes wrong when a grid is built with these extents and this
/// distance, checked in this order.
pub open spec fn construction_error(extents: Seq<u32>, min_distance: int) -> Option<GridError> {
    if min_distance == 0 {
        Some(GridError::NonPositiveDistance)
    } else if extents.len() == 0 {
        Some(GridError::EmptyDomain)
    } else if exists|i: int| 0 <= i < extents.len() && #[trigger] extents[i] == 0 {
        Some(GridError::DegenerateExtent)
    } else if grid_too_large(extents, min_distance) {
        Some(GridError::TooLarge)
    } else {
        None
    }
}

/// A uniform grid of cells over the domain, each cell holding the id of the
/// one sample inside it, or 0.
#[derive(Debug)]
pub struct BackgroundGrid {
    data: Vec<usize>,
    dimensions: Vec<u32>,
    min_distance: u32,
    cell_offs: u64,
    cell_count: Vec<usize>,
    cell_multiplicators: Vec<usize>,
}

impl BackgroundGrid {
    /// Extent of the domain along each axis.
    pub closed spec fn extents(&self) -> Seq<u32> {
        self.dimensions@
    }

    pub closed spec fn min_dist(&self) -> int {
        self.min_distance as int
    }

    pub closed spec fn dim(&self) -> int {
        self.dimensions@.len() as int
    }

    pub closed spec fn counts(&self) -> Seq<int> {
        as_ints(self.cell_count@)
    }

    /// Position in the cell array of the cell with these indices.
    pub closed spec fn flat(&self, v: Seq<int>) -> int {
        mixed(v, self.counts(), self.dim())
    }

    /// Position in the cell array of the cell that holds `p`.
    pub closed spec fn home(&self, p: Seq<i64>) -> int {
        self.flat(cell_of(p, self.min_dist(), self.dim()))
    }

    /// Number of cells.
    pub closed spec fn capacity(&self) -> int {
        self.data@.len() as int
    }

    /// The layout of the grid agrees with its extents and distance.
    pub closed spec fn shape_ok(&self) -> bool {
        &&& 1 <= self.dim() <= 0x2000_0000_0000_0000
        &&& self.min_distance >= 1
        &&& self.cell_offs == cell_reach(self.dim())
        &&& self.cell_offs <= 0x8000_0000
        &&& self.cell_count@.len() == self.dim()
        &&& self.cell_multiplicators@.len() == self.dim()
        &&& self.counts() == cell_counts(self.extents(), self.min_dist())
        &&& forall|i: int| 0 <= i < self.dim() ==> #[trigger] self.dimensions@[i] >= 1
        &&& forall|i: int|
            0 <= i < self.dim() ==> #[trigger] self.cell_multiplicators@[i] == radix_prod(
                self.counts(),
                i,
            )
        &&& radix_prod(self.counts(), self.dim()) == self.data@.len()
    }

    /// The grid indexes exactly the samples of this store, which lie in
    /// the domain and keep the minimum distance pairwise.
    pub closed spec fn wf(&self, samples: Seq<Vec<i64>>) -> bool {
        &&& self.shape_ok()
        &&& forall|j: int| 0 <= j < samples.len() ==> in_domain(#[trigger] samples[j]@, self.extents())
        &&& forall|j: int|
            0 <= j < samples.len() ==> self.data@[self.home(#[trigger] samples[j]@)] == j + 1
        &&& occupied(self.data@) == samples.len()
        &&& forall|c: int| 0 <= c < self.data@.len() ==> #[trigger] self.data@[c] <= samples.len()
        &&& forall|c: int|
            0 <= c < self.data@.len() && #[trigger] self.data@[c] != 0 ==> self.home(
                samples[self.data@[c] - 1]@,
            ) == c
        &&& forall|i: int, j: int|
            0 <= i < j < samples.len() ==> dist_sqr(#[trigger] samples[j]@, #[trigger] samples[i]@)
                >= self.min_dist() * self.min_dist()
    }

    /// Builds an empty grid over a domain of the given extents.
    pub fn new(dimensions: Vec<u32>, min_distance: u32) -> (r: Result<BackgroundGrid, GridError>)
        ensures
            r is Err <==> construction_error(dimensions@, min_distance as int) is Some,
            r matches Err(e) ==> construction_error(dimensions@, min_distance as int) == Some(e),
            r matches Ok(g) ==> g.wf(Seq::empty()) && g.extents() == dimensions@ && g.min_dist() == min_distance
                && g.capacity() >= 1 && g.capacity() == cell_total(dimensions@, min_distance as int),
    {
        if min_distance == 0 {
            return Err(GridError::NonPositiveDistance);
        }
        let dimension = dimensions.len();
        if dimension == 0 {
            return Err(GridError::EmptyDomain);
        }
        if dimension as u64 > 0x2000_0000_0000_0000u64 {
            let mut k: usize = 0;
            while k < dimension
                invariant
                    dimension == dimensions@.len(),
                    min_distance > 0,
                    0 <= k <= dimension,
                    forall|i: int| 0 <= i < k ==> #[trigger] dimensions@[i] > 0,
                decreases dimension - k,
            {
                if dimensions[k] == 0 {
                    return Err(GridError::DegenerateExtent);
                }
                k = k + 1;
            }
            return Err(GridError::TooLarge);
        }
        let mut k: usize = 0;
        while k < dimension
            invariant
                dimension == dimensions@.len(),
                min_distance > 0,
                0 <= k <= dimension,
                forall|i: int| 0 <= i < k ==> #[trigger] dimensions@[i] > 0,
            decreases dimension - k,
        {
            if dimensions[k] == 0 {
                return Err(GridError::DegenerateExtent);
            }
            k = k + 1;
        }
        let d = dimension as u64;
        let cell_offs = reach_of(d);
        let ghost counts = cell_counts(dimensions@, min_distance as int);
        proof {
            assert(radices_positive(counts, dimension as int)) by {
                assert forall|j: int| 0 <= j < dimension implies #[trigger] counts[j] >= 1 by {
                    lemma_cell_in_grid(0, dimensions@[j] as int, min_distance as int, dimension as int);
                }
            }
        }
        let mut cell_count: Vec<usize> = Vec::new();
        let mut cell_multiplicators: Vec<usize> = Vec::new();
        let mut multi_accu: usize = 1;
        let mut i: usize = 0;
        while i < dimension
            invariant
                dimension == dimensions@.len(),
                d == dimension,
                1 <= d <= 0x2000_0000_0000_0000,
                min_distance >= 1,
                cell_offs == cell_reach(d as int),
                cell_offs <= 0x8000_0000,
                0 <= i <= dimension,
                counts == cell_counts(dimensions@, min_distance as int),
                radices_positive(counts, dimension as int),
                forall|j: int| 0 <= j < dimension ==> #[trigger] dimensions@[j] > 0,
                cell_count@.len() == i,
                cell_multiplicators@.len() == i,
                forall|j: int| 0 <= j < i ==> #[trigger] cell_count@[j] == counts[j],
                forall|j: int| 0 <= j < i ==> #[trigger] cell_multiplicators@[j] == radix_prod(counts, j),
                multi_accu == radix_prod(counts, i as int),
                multi_accu >= 1,
            decreases dimension - i,
        {
            let count = count_of(dimensions[i] as u64, min_distance, d, cell_offs);
            assert(count == counts[i as int]);
            assert((multi_accu as int) * (count as int) <= 0xffff_ffff_ffff_ffff * 0xffff_ffff_ffff_ffff) by (nonlinear_arith)
                requires
                    0 <= multi_accu <= 0xffff_ffff_ffff_ffff,
                    0 <= count <= 0xffff_ffff_ffff_ffff,
            ;
            let wide: u128 = (multi_accu as u128) * (count as u128);
            if wide > usize::MAX as u128 {
                proof {
                    lemma_radix_prod_mono(counts, i as int + 1, dimension as int);
                }
                return Err(GridError::TooLarge);
            }
            assert(count <= wide) by (nonlinear_arith)
                requires
                    wide == multi_accu * count,
                    multi_accu >= 1,
                    count >= 0,
            ;
            cell_count.push(count as usize);
            cell_multiplicators.push(multi_accu);
            multi_accu = wide as usize;
            i = i + 1;
        }
        let data = vec![0usize; multi_accu];
        let grid = BackgroundGrid {
            data,
            dimensions,
            min_distance,
            cell_offs,
            cell_count,
            cell_multiplicators,
        };
        proof {
            lemma_radix_prod_positive(counts, dimension as int);
            lemma_occupied_empty(grid.data@);
            assert(grid.counts() =~= counts);
        }
        Ok(grid)
    }

    /// Position in the cell array of the cell with the given indices.
    fn calc_idx(&self, cell_id: &Vec<usize>) -> (r: usize)
        requires
            self.shape_ok(),
            cell_id@.len() == self.dim(),
            digits_in_range(as_ints(cell_id@), self.counts(), self.dim()),
        ensures
            r == self.flat(as_ints(cell_id@)),
            r < self.data@.len(),
    {
        let ghost v = as_ints(cell_id@);
        let ghost cc = self.counts();
        let ghost d = self.dim();
        proof {
            assert(radices_positive(cc, d)) by {
                assert forall|j: int| 0 <= j < d implies #[trigger] cc[j] >= 1 by {
                    assert(v[j] < cc[j]);
                }
            }
        }
        let total = self.data.len();
        let mut accu: usize = 0;
        let mut i: usize = 0;
        while i < cell_id.len()
            invariant
                self.shape_ok(),
                total == self.data@.len(),
                v == as_ints(cell_id@),
                cc == self.counts(),
                d == self.dim(),
                cell_id@.len() == d,
                0 <= i <= d,
                radices_positive(cc, d),
                digits_in_range(v, cc, d),
                accu == mixed(v, cc, i as int),
            decreases d - i,
        {
            proof {
                lemma_mixed_bound(v, cc, i as int + 1);
                lemma_radix_prod_mono(cc, i as int + 1, d);
                lemma_mixed_bound(v, cc, i as int);
                let a = mixed(v, cc, i as int);
                let p = radix_prod(cc, i as int);
                let x = v[i as int];
                assert(x * p <= a + x * p) by (nonlinear_arith)
                    requires
                        a >= 0,
                ;
                assert(self.cell_multiplicators@[i as int] == p);
                assert(mixed(v, cc, i as int + 1) == a + x * p);
                assert(cell_id@[i as int] as int == x);
                assert(a + x * p < total);
            }
            accu = accu + cell_id[i] * self.cell_multiplicators[i];
            i = i + 1;
        }
        proof {
            lemma_mixed_bound(v, cc, d);
        }
        accu
    }

    /// Number of cells along each axis.
    pub fn cell_count(&self) -> (r: &Vec<usize>)
        requires
            self.shape_ok(),
        ensures
            as_ints(r@) == cell_counts(self.extents(), self.min_dist()),
    {
        &self.cell_count
    }

    /// Every sample of the store lies in the domain, and no two are closer
    /// than the minimum distance; as each cell holds one sample at most, the
    /// store is no larger than the number of cells.
    pub proof fn lemma_samples(&self, samples: Seq<Vec<i64>>)
        requires
            self.wf(samples),
        ensures
            forall|j: int| 0 <= j < samples.len() ==> in_domain(#[trigger] samples[j]@, self.extents()),
            forall|i: int, j: int|
                0 <= i < samples.len() && 0 <= j < samples.len() && i != j ==> dist_sqr(
                    #[trigger] samples[i]@,
                    #[trigger] samples[j]@,
                ) >= self.min_dist() * self.min_dist(),
            samples.len() <= self.capacity(),
            self.min_dist() >= 1,
            self.extents().len() >= 1,
            forall|i: int| 0 <= i < self.extents().len() ==> #[trigger] self.extents()[i] >= 1,
            self.shape_ok(),
    {
        lemma_occupied_bound(self.data@);
        assert forall|i: int, j: int|
            0 <= i < samples.len() && 0 <= j < samples.len() && i != j implies dist_sqr(
            #[trigger] samples[i]@,
            #[trigger] samples[j]@,
        ) >= self.min_dist() * self.min_dist() by {
            if i < j {
                lemma_sum_sq_symmetric(samples[i]@, samples[j]@, samples[i]@.len() as int);
            }
        }
    }

    /// The cell `b` of the window holds no sample closer than the minimum
    /// distance to `p`.
    closed spec fn cell_clear(&self, samples: Seq<Vec<i64>>, p: Seq<i64>, b: Seq<usize>) -> bool {
        let c = self.flat(as_ints(b));
        self.data@[c] == 0 || dist_sqr(p, samples[self.data@[c] - 1]@) >= self.min_dist()
            * self.min_dist()
    }

    /// The window of cells around `p`'s cell, `cell_offs` cells each way and
    /// cut at the grid's border.
    closed spec fn window_ok(&self, p: Seq<i64>, lo: Seq<usize>, hi: Seq<usize>) -> bool {
        let c = cell_of(p, self.min_dist(), self.dim());
        let o = self.cell_offs as int;
        &&& lo.len() == self.dim()
        &&& hi.len() == self.dim()
        &&& forall|i: int|
            0 <= i < self.dim() ==> #[trigger] lo[i] == (if c[i] >= o {
                c[i] - o
            } else {
                0
            })
        &&& forall|i: int|
            0 <= i < self.dim() ==> #[trigger] hi[i] == (if self.counts()[i] - 1 - c[i] >= o {
                c[i] + o
            } else {
                self.counts()[i] - 1
            })
    }

    proof fn lemma_cell_digits(&self, p: Seq<i64>)
        requires
            self.shape_ok(),
            in_domain(p, self.extents()),
        ensures
            digits_in_range(cell_of(p, self.min_dist(), self.dim()), self.counts(), self.dim()),
            radices_positive(self.counts(), self.dim()),
    {
        let m = self.min_dist();
        let d = self.dim();
        assert forall|i: int| 0 <= i < d implies 0 <= #[trigger] cell_of(p, m, d)[i] < self.counts()[i] by {
            lemma_cell_in_grid(p[i] as int, self.dimensions@[i] as int, m, d);
        }
        assert forall|i: int| 0 <= i < d implies #[trigger] self.counts()[i] >= 1 by {
            lemma_cell_in_grid(0, self.dimensions@[i] as int, m, d);
        }
    }

    /// A window in which every cell is clear holds every sample that could
    /// be too close, so none is.
    proof fn lemma_window_complete(&self, samples: Seq<Vec<i64>>, p: Seq<i64>, lo: Seq<usize>, hi: Seq<usize>)
        requires
            self.wf(samples),
            in_domain(p, self.extents()),
            self.window_ok(p, lo, hi),
            forall|b: Seq<usize>| #[trigger] in_box(b, lo, hi) ==> self.cell_clear(samples, p, b),
        ensures
            !conflicts(p, samples, self.min_dist()),
    {
        let m = self.min_dist();
        let d = self.dim();
        let o = self.cell_offs as int;
        let c = cell_of(p, m, d);
        if conflicts(p, samples, m) {
            let j = choose|j: int|
                0 <= j < samples.len() && dist_sqr(p, #[trigger] samples[j]@) < m * m;
            let q = samples[j]@;
            assert(in_domain(q, self.extents()));
            self.lemma_cell_digits(q);
            let cq = cell_of(q, m, d);
            let b = Seq::new(self.dim() as nat, |i: int| cq[i] as usize);
            assert(as_ints(b) =~= cq);
            assert forall|i: int| 0 <= i < b.len() implies lo[i] <= #[trigger] b[i] <= hi[i] by {
                lemma_sum_sq_axis(p, q, p.len() as int, i);
                lemma_near_cells(p[i] as int, q[i] as int, m, d);
            }
            assert(in_box(b, lo, hi));
            assert(self.cell_clear(samples, p, b));
            assert(self.data@[self.home(q)] == j + 1);
        }
    }

    /// Adds `sample_position` to the store and the grid, unless it lies
    /// outside the domain or closer than the minimum distance to a stored
    /// sample. Returns the new sample's id, its 1-based position in the
    /// store.
    pub fn insert(&mut self, sample_position: Vec<i64>, samples: &mut Vec<Vec<i64>>) -> (r: Result<usize, ()>)
        requires
            old(self).wf(old(samples)@),
            sample_position@.len() == old(self).extents().len(),
        ensures
            final(self).wf(final(samples)@),
            final(self).extents() == old(self).extents(),
            final(self).min_dist() == old(self).min_dist(),
            final(self).capacity() == old(self).capacity(),
            r is Err <==> !in_domain(sample_position@, old(self).extents()) || conflicts(
                sample_position@,
                old(samples)@,
                old(self).min_dist(),
            ),
            r matches Ok(id) ==> id == old(samples)@.len() + 1 && final(samples)@ == old(samples)@.push(
                sample_position,
            ),
            r is Err ==> final(samples)@ == old(samples)@ && *final(self) == *old(self),
    {
        let dimension = self.dimensions.len();
        let ghost p = sample_position@;
        let ghost m = self.min_dist();
        let mut i: usize = 0;
        while i < dimension
            invariant
                self.wf(samples@),
                dimension == self.dimensions@.len(),
                p == sample_position@,
                p.len() == dimension,
                0 <= i <= dimension,
                forall|k: int| 0 <= k < i ==> 0 <= #[trigger] p[k] < self.dimensions@[k],
            decreases dimension - i,
        {
            if sample_position[i] < 0 || sample_position[i] >= self.dimensions[i] as i64 {
                return Err(());
            }
            i = i + 1;
        }
        assert(in_domain(p, self.extents()));
        proof {
            self.lemma_cell_digits(p);
        }
        let offs = self.cell_offs as usize;
        let mut cell_id: Vec<usize> = Vec::new();
        let mut min_cell: Vec<usize> = Vec::new();
        let mut max_cell: Vec<usize> = Vec::new();
        let ghost c = cell_of(p, self.min_dist(), self.dim());
        let mut i: usize = 0;
        while i < dimension
            invariant
                self.wf(samples@),
                dimension == self.dimensions@.len(),
                p == sample_position@,
                in_domain(p, self.extents()),
                offs == self.cell_offs,
                c == cell_of(p, self.min_dist(), self.dim()),
                digits_in_range(c, self.counts(), self.dim()),
                0 <= i <= dimension,
                cell_id@.len() == i,
                min_cell@.len() == i,
                max_cell@.len() == i,
                forall|k: int| 0 <= k < i ==> #[trigger] cell_id@[k] == c[k],
                forall|k: int|
                    0 <= k < i ==> #[trigger] min_cell@[k] == (if c[k] >= offs {
                        c[k] - offs
                    } else {
                        0
                    }),
                forall|k: int|
                    0 <= k < i ==> #[trigger] max_cell@[k] == (if self.counts()[k] - 1 - c[k] >= offs {
                        c[k] + offs
                    } else {
                        self.counts()[k] - 1
                    }),
            decreases dimension - i,
        {
            let x = sample_position[i];
            assert(0 <= x < self.dimensions@[i as int]);
            assert(c[i as int] < self.counts()[i as int]);
            let k = index_of(x as u64, self.min_distance, dimension as u64, self.cell_offs);
            let cid = k as usize;
            cell_id.push(cid);
            min_cell.push(if cid >= offs { cid - offs } else { 0 });
            let top = self.cell_count[i] - 1;
            max_cell.push(if top - cid >= offs { cid + offs } else { top });
            i = i + 1;
        }
        assert(as_ints(cell_id@) =~= c);
        let samp_idx = self.calc_idx(&cell_id);
        assert(self.window_ok(p, min_cell@, max_cell@));
        assert(box_ok(min_cell@, max_cell@));
        let mut indices = min_cell.clone();
        assert(in_box(indices@, min_cell@, max_cell@));
        proof {
            let os = crate::radix::box_offsets(indices@, min_cell@);
            assert forall|k: int| 0 <= k < dimension implies #[trigger] os[k] == 0 by {}
            crate::radix::lemma_mixed_all_zero(os, crate::radix::box_widths(min_cell@, max_cell@), dimension as int);
            assert forall|b: Seq<usize>| #[trigger] in_box(b, min_cell@, max_cell@) implies box_rank(b, min_cell@, max_cell@) >= 0 by {
                lemma_box_rank(b, min_cell@, max_cell@);
            }
        }
        let md = self.min_distance as u128;
        assert(md * md <= 0xffff_ffff_ffff_ffff) by (nonlinear_arith)
            requires
                md <= 0xffff_ffff,
        ;
        let min_dst_sqr: u128 = (self.min_distance as u128) * (self.min_distance as u128);
        let mut scanning = true;
        while scanning
            invariant
                self.wf(samples@),
                dimension == self.dimensions@.len(),
                p == sample_position@,
                in_domain(p, self.extents()),
                m == self.min_dist(),
                min_dst_sqr == m * m,
                self.window_ok(p, min_cell@, max_cell@),
                box_ok(min_cell@, max_cell@),
                digits_in_range(c, self.counts(), self.dim()),
                in_box(indices@, min_cell@, max_cell@),
                scanning ==> forall|b: Seq<usize>|
                    #[trigger] in_box(b, min_cell@, max_cell@) && box_rank(b, min_cell@, max_cell@)
                        < box_rank(indices@, min_cell@, max_cell@) ==> self.cell_clear(samples@, p, b),
                !scanning ==> forall|b: Seq<usize>|
                    #[trigger] in_box(b, min_cell@, max_cell@) ==> self.cell_clear(samples@, p, b),
            decreases (if scanning {
                box_size(min_cell@, max_cell@) - box_rank(indices@, min_cell@, max_cell@)
            } else {
                0
            }),
        {
            let ghost cur = indices@;
            proof {
                lemma_box_rank(cur, min_cell@, max_cell@);
                assert forall|k: int| 0 <= k < self.dim() implies 0 <= #[trigger] as_ints(cur)[k]
                    < self.counts()[k] by {
                    assert(cur[k] <= max_cell@[k]);
                }
            }
            let idx = self.calc_idx(&indices);
            let other_id = self.data[idx];
            if other_id != 0 {
                assert(other_id <= samples@.len());
                assert(in_domain(samples@[other_id - 1]@, self.extents()));
                let d2 = dst_sqr(&sample_position, &samples[other_id - 1]);
                if d2 < min_dst_sqr {
                    assert(dist_sqr(p, samples@[other_id - 1]@) < m * m);
                    return Err(());
                }
            }
            assert(self.cell_clear(samples@, p, cur));
            let more = advance(&mut indices, &min_cell, &max_cell);
            proof {
                assert forall|b: Seq<usize>|
                    #[trigger] in_box(b, min_cell@, max_cell@) && box_rank(b, min_cell@, max_cell@)
                        <= box_rank(cur, min_cell@, max_cell@) implies self.cell_clear(samples@, p, b) by {
                    if box_rank(b, min_cell@, max_cell@) == box_rank(cur, min_cell@, max_cell@) {
                        lemma_box_rank_injective(b, cur, min_cell@, max_cell@);
                    }
                }
                if !more {
                    assert forall|b: Seq<usize>| #[trigger]
                        in_box(b, min_cell@, max_cell@) implies self.cell_clear(samples@, p, b) by {
                        lemma_box_rank(b, min_cell@, max_cell@);
                        assert(in_box(b, min_cell@, max_cell@) && box_rank(b, min_cell@, max_cell@)
                            <= box_rank(cur, min_cell@, max_cell@));
                    }
                }
            }
            scanning = more;
        }
        proof {
            self.lemma_window_complete(samples@, p, min_cell@, max_cell@);
        }
        self.finish_insert(sample_position, samples, samp_idx)
    }

    /// Stores a sample that has passed both checks, in the cell at
    /// `samp_idx`, its own.
    fn finish_insert(&mut self, sample_position: Vec<i64>, samples: &mut Vec<Vec<i64>>, samp_idx: usize) -> (r: Result<usize, ()>)
        requires
            old(self).wf(old(samples)@),
            in_domain(sample_position@, old(self).extents()),
            !conflicts(sample_position@, old(samples)@, old(self).min_dist()),
            samp_idx == old(self).home(sample_position@),
        ensures
            final(self).wf(final(samples)@),
            final(self).extents() == old(self).extents(),
            final(self).min_dist() == old(self).min_dist(),
            r matches Ok(id) && id == old(samples)@.len() + 1,
            final(self).capacity() == old(self).capacity(),
            final(samples)@ == old(samples)@.push(sample_position),
    {
        let ghost p = sample_position@;
        let ghost m = self.min_dist();
        let ghost d = self.dim();
        let ghost old_samples = samples@;
        proof {
            self.lemma_cell_digits(p);
            lemma_mixed_bound(cell_of(p, m, d), self.counts(), self.dim());
            let k = self.data@[samp_idx as int];
            if k != 0 {
                let q = old_samples[k - 1]@;
                assert(in_domain(q, self.extents()));
                self.lemma_cell_digits(q);
                lemma_mixed_injective(cell_of(q, m, d), cell_of(p, m, d), self.counts(), self.dim());
                assert forall|i: int| 0 <= i < p.len() implies d * (#[trigger] p[i] - q[i]) * (p[i] - q[i]) < m * m by {
                    assert(cell_of(q, m, d)[i] == cell_of(p, m, d)[i]);
                    lemma_same_cell(p[i] as int, q[i] as int, m, d);
                }
                lemma_sum_sq_scaled(p, q, p.len() as int, m, d);
                assert(sum_sq(p, q, p.len() as int) < m * m) by (nonlinear_arith)
                    requires
                        d * sum_sq(p, q, p.len() as int) <= p.len() * (m * m - 1),
                        p.len() == d,
                        d >= 1,
                ;
                assert(dist_sqr(p, old_samples[k - 1]@) < m * m);
                assert(conflicts(p, old_samples, m));
            }
            assert(self.data@[samp_idx as int] == 0);
        }
        samples.push(sample_position);
        let new_id = samples.len();
        proof {
            lemma_occupied_fill(self.data@, samp_idx as int, new_id);
        }
        self.data.set(samp_idx, new_id);
        proof {
            let n = old_samples.len();
            let ns = samples@;
            assert(ns[n as int]@ == p);
            assert forall|j: int| 0 <= j < ns.len() implies self.data@[self.home(#[trigger] ns[j]@)] == j + 1 by {
                if j < n {
                    assert(ns[j] == old_samples[j]);
                    assert(in_domain(old_samples[j]@, self.extents()));
                    self.lemma_cell_digits(old_samples[j]@);
                    lemma_mixed_bound(cell_of(old_samples[j]@, m, d), self.counts(), self.dim());
                    assert(old(self).data@[self.home(old_samples[j]@)] == j + 1);
                }
            }
            assert forall|c: int| 0 <= c < self.data@.len() && #[trigger] self.data@[c] != 0 implies self.home(
                ns[self.data@[c] - 1]@,
            ) == c by {
                if c != samp_idx {
                    assert(old(self).data@[c] != 0);
                    assert(ns[self.data@[c] - 1] == old_samples[self.data@[c] - 1]);
                }
            }
            assert forall|i: int, j: int|
                0 <= i < j < ns.len() implies dist_sqr(#[trigger] ns[j]@, #[trigger] ns[i]@) >= m * m by {
                if j == n {
                    assert(!(dist_sqr(p, old_samples[i]@) < m * m));
                } else {
                    assert(ns[j] == old_samples[j] && ns[i] == old_samples[i]);
                }
            }
            assert forall|c: int| 0 <= c < self.data@.len() implies #[trigger] self.data@[c] <= ns.len() by {
                if c != samp_idx {
                    assert(old(self).data@[c] <= n);
                }
            }
            assert forall|j: int| 0 <= j < ns.len() implies in_domain(#[trigger] ns[j]@, self.extents()) by {
                if j < n {
                    assert(ns[j] == old_samples[j]);
                }
            }
        }
        Ok(new_id)
    }
}

} // verus!
