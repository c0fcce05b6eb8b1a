//! The active-list generator: dart throwing around the samples that may
//! still spawn neighbours, one accepted sample per pull.
use vstd::prelude::*;
use rand::Rng;
use crate::grid::{
    BackgroundGrid, GridError, cell_total, conflicts, construction_error, dist_sqr, in_domain,
    lemma_sum_sq_nonneg, sum_sq,
};

verus! {

/// Number of offset vectors drawn for one attempt before the attempt counts
/// as rejected.
pub const OFFSET_DRAWS: usize = 4096;

/// Relies on rand's `thread_rng` and `Rng::gen_range`: a value drawn from
/// `[lo, hi)`. `gen_range` panics on an empty range, which `requires` leaves
/// out.
#[verifier::external_body]
fn random_in(lo: i64, hi: i64) -> (r: i64)
    requires
        lo < hi,
    ensures
        lo <= r < hi,
{
    rand::thread_rng().gen_range(lo..hi)
}

/// The origin, in as many axes as `o` has.
pub open spec fn origin(o: Seq<i64>) -> Seq<i64> {
    Seq::new(o.len(), |i: int| 0i64)
}

/// Squared length of an offset vector.
pub open spec fn norm_sqr(o: Seq<i64>) -> int {
    sum_sq(o, origin(o), o.len() as int)
}

/// The offset's length lies in `[m, 2m)`.
pub open spec fn in_shell(o: Seq<i64>, m: int) -> bool {
    m * m <= norm_sqr(o) < 4 * m * m
}

/// `c` is `p` moved by `o`.
pub open spec fn moved_by(c: Seq<i64>, p: Seq<i64>, o: Seq<i64>) -> bool {
    &&& c.len() == p.len()
    &&& o.len() == p.len()
    &&& forall|i: int| 0 <= i < p.len() ==> #[trigger] c[i] == p[i] + o[i]
}

/// Every sample after the first has an earlier one closer than twice the
/// minimum distance.
pub open spec fn has_parents(points: Seq<Seq<i64>>, m: int) -> bool {
    forall|j: int| 0 < j < points.len() ==> #[trigger] has_parent(points, j, m)
}

/// Some sample before the `j`-th is closer than twice the minimum distance
/// to it.
pub open spec fn has_parent(points: Seq<Seq<i64>>, j: int, m: int) -> bool {
    exists|i: int| 0 <= i < j && #[trigger] dist_sqr(points[j], points[i]) < 4 * m * m
}

/// A sample appended close enough to an earlier one keeps every sample
/// after the first near an earlier one.
pub proof fn lemma_push_with_parent(points: Seq<Seq<i64>>, p: Seq<i64>, i: int, m: int)
    requires
        has_parents(points, m),
        0 <= i < points.len(),
        dist_sqr(p, points[i]) < 4 * m * m,
    ensures
        has_parents(points.push(p), m),
{
    let pts = points.push(p);
    assert forall|j: int| 0 < j < pts.len() implies #[trigger] has_parent(pts, j, m) by {
        if j == points.len() {
            assert(pts[i] == points[i]);
            assert(dist_sqr(pts[j], pts[i]) < 4 * m * m);
        } else {
            assert(pts[j] == points[j]);
            assert(has_parent(points, j, m));
            let k = choose|k: int| 0 <= k < j && #[trigger] dist_sqr(points[j], points[k]) < 4 * m * m;
            assert(pts[k] == points[k]);
            assert(dist_sqr(pts[j], pts[k]) < 4 * m * m);
        }
    }
}

/// In a set of two or more samples where each sample after the first has an
/// earlier one closer than twice the minimum distance, every sample has
/// another one that close: the first has the second.
pub proof fn lemma_near_neighbour(points: Seq<Seq<i64>>, m: int, j: int)
    requires
        has_parents(points, m),
        points.len() >= 2,
        forall|k: int| 0 <= k < points.len() ==> #[trigger] points[k].len() == points[0].len(),
        0 <= j < points.len(),
    ensures
        exists|i: int| 0 <= i < points.len() && i != j && #[trigger] dist_sqr(points[j], points[i]) < 4 * m * m,
{
    if j == 0 {
        assert(has_parent(points, 1, m));
        crate::grid::lemma_sum_sq_symmetric(points[1], points[0], points[1].len() as int);
        assert(points[1].len() == points[0].len());
        assert(dist_sqr(points[1], points[0]) < 4 * m * m);
        assert(dist_sqr(points[0], points[1]) < 4 * m * m);
    } else {
        assert(has_parent(points, j, m));
        let i = choose|i: int| 0 <= i < j && #[trigger] dist_sqr(points[j], points[i]) < 4 * m * m;
        assert(dist_sqr(points[j], points[i]) < 4 * m * m);
    }
}

/// Every coordinate of every sample lies in the domain.
pub open spec fn all_in_domain(points: Seq<Seq<i64>>, extents: Seq<u32>) -> bool {
    forall|j: int| 0 <= j < points.len() ==> in_domain(#[trigger] points[j], extents)
}

/// No two samples are closer than the minimum distance.
pub open spec fn well_separated(points: Seq<Seq<i64>>, m: int) -> bool {
    forall|i: int, j: int|
        0 <= i < points.len() && 0 <= j < points.len() && i != j ==> dist_sqr(
            #[trigger] points[i],
            #[trigger] points[j],
        ) >= m * m
}

/// `p` moved by `o`, axis by axis.
pub open spec fn shifted(p: Seq<i64>, o: Seq<i64>) -> Seq<i64> {
    Seq::new(p.len(), |i: int| (p[i] + o[i]) as i64)
}

/// Some point of the set is closer than `m` to `p`.
pub open spec fn too_close(p: Seq<i64>, points: Seq<Seq<i64>>, m: int) -> bool {
    exists|j: int| 0 <= j < points.len() && dist_sqr(p, #[trigger] points[j]) < m * m
}

/// A candidate `c`, drawn at offset `o` from a sample, is taken: the offset
/// lies in the shell, `c` in the domain, and no sample is too close to it.
pub open spec fn accepts(points: Seq<Seq<i64>>, extents: Seq<u32>, m: int, c: Seq<i64>, o: Seq<i64>) -> bool {
    in_shell(o, m) && in_domain(c, extents) && !too_close(c, points, m)
}

pub open spec fn points_of(samples: Seq<Vec<i64>>) -> Seq<Seq<i64>> {
    samples.map_values(|v: Vec<i64>| v@)
}

proof fn lemma_conflicts_points(p: Seq<i64>, samples: Seq<Vec<i64>>, m: int)
    ensures
        conflicts(p, samples, m) == too_close(p, points_of(samples), m),
{
    let pts = points_of(samples);
    if conflicts(p, samples, m) {
        let j = choose|j: int| 0 <= j < samples.len() && dist_sqr(p, #[trigger] samples[j]@) < m * m;
        assert(pts[j] == samples[j]@);
    }
    if too_close(p, pts, m) {
        let j = choose|j: int| 0 <= j < pts.len() && dist_sqr(p, #[trigger] pts[j]) < m * m;
        assert(pts[j] == samples[j]@);
    }
}

proof fn lemma_sum_sq_mono(x: Seq<i64>, y: Seq<i64>, j: int, k: int)
    requires
        0 <= j <= k,
    ensures
        sum_sq(x, y, j) <= sum_sq(x, y, k),
    decreases k,
{
    if j < k {
        lemma_sum_sq_mono(x, y, j, k - 1);
        let d = x[k - 1] - y[k - 1];
        assert(d * d >= 0) by (nonlinear_arith);
    }
}

/// Pairs with equal differences on every axis are equally far apart.
proof fn lemma_sum_sq_same_diffs(x: Seq<i64>, y: Seq<i64>, u: Seq<i64>, v: Seq<i64>, k: int)
    requires
        forall|i: int| 0 <= i < k ==> #[trigger] x[i] - y[i] == u[i] - v[i],
    ensures
        sum_sq(x, y, k) == sum_sq(u, v, k),
    decreases k,
{
    if k > 0 {
        assert(x[k - 1] - y[k - 1] == u[k - 1] - v[k - 1]);
        lemma_sum_sq_same_diffs(x, y, u, v, k - 1);
    }
}

/// Tells whether the offset's length lies in `[min_distance, 2 * min_distance)`.
pub fn in_annulus(offset: &Vec<i64>, min_distance: u32) -> (r: bool)
    requires
        forall|i: int| 0 <= i < offset@.len() ==> -0x2_0000_0000 <= #[trigger] offset@[i] <= 0x2_0000_0000,
    ensures
        r == in_shell(offset@, min_distance as int),
{
    let ghost o = offset@;
    let ghost z = origin(o);
    if min_distance == 0 {
        proof {
            lemma_sum_sq_nonneg(o, z, o.len() as int);
        }
        return false;
    }
    let m = min_distance as u128;
    assert(m * m <= 4 * m * m <= 0x4_0000_0000_0000_0000 && 4 * m * m > 0) by (nonlinear_arith)
        requires
            1 <= m <= 0xffff_ffff,
    ;
    let lo: u128 = m * m;
    let hi: u128 = 4 * m * m;
    let mut accu: u128 = 0;
    let mut i: usize = 0;
    while i < offset.len()
        invariant
            o == offset@,
            z == origin(o),
            0 <= i <= o.len(),
            forall|k: int| 0 <= k < o.len() ==> -0x2_0000_0000 <= #[trigger] o[k] <= 0x2_0000_0000,
            m == min_distance,
            lo == m * m,
            hi == 4 * m * m,
            hi <= 0x4_0000_0000_0000_0000,
            accu == sum_sq(o, z, i as int),
            accu < hi,
        decreases o.len() - i,
    {
        let x = offset[i];
        let mag: u128 = if x < 0 { (-(x as i128)) as u128 } else { x as u128 };
        assert(mag * mag <= 0x4_0000_0000_0000_0000) by (nonlinear_arith)
            requires
                mag <= 0x2_0000_0000,
        ;
        assert(mag * mag == (x - 0) * (x - 0)) by (nonlinear_arith)
            requires
                mag == x || mag == -x,
        ;
        assert(z[i as int] == 0);
        accu = accu + mag * mag;
        assert(accu == sum_sq(o, z, i as int + 1));
        i = i + 1;
        if accu >= hi {
            proof {
                lemma_sum_sq_mono(o, z, i as int, o.len() as int);
            }
            return false;
        }
    }
    lo <= accu
}

/// Draws an offset vector uniformly from the integer points of the cube of
/// half-edge `2 * min_distance`, until one falls in the shell
/// `[min_distance, 2 * min_distance)`, or gives up after a bounded number of
/// draws.
fn draw_offset(dimension: usize, min_distance: u32) -> (r: Option<Vec<i64>>)
    requires
        min_distance >= 1,
    ensures
        r matches Some(o) ==> o@.len() == dimension && in_shell(o@, min_distance as int) && forall|i: int|
            0 <= i < dimension ==> -2 * min_distance < #[trigger] o@[i] < 2 * min_distance,
{
    let span: i64 = 2 * (min_distance as i64);
    let mut tries: usize = 0;
    while tries < OFFSET_DRAWS
        invariant
            span == 2 * min_distance,
            min_distance >= 1,
        decreases OFFSET_DRAWS - tries,
    {
        let mut o: Vec<i64> = Vec::new();
        let mut i: usize = 0;
        while i < dimension
            invariant
                span == 2 * min_distance,
                min_distance >= 1,
                0 <= i <= dimension,
                o@.len() == i,
                forall|k: int| 0 <= k < i ==> -span < #[trigger] o@[k] < span,
            decreases dimension - i,
        {
            let x = random_in(1 - span, span);
            o.push(x);
            i = i + 1;
        }
        if in_annulus(&o, min_distance) {
            return Some(o);
        }
        tries = tries + 1;
    }
    None
}

/// The point `p` moved by `offset`.
pub fn offset_point(p: &Vec<i64>, offset: &Vec<i64>) -> (r: Vec<i64>)
    requires
        p@.len() == offset@.len(),
        forall|i: int| 0 <= i < p@.len() ==> -0x1_0000_0000_0000 <= #[trigger] p@[i] <= 0x1_0000_0000_0000,
        forall|i: int| 0 <= i < p@.len() ==> -0x1_0000_0000_0000 <= #[trigger] offset@[i] <= 0x1_0000_0000_0000,
    ensures
        moved_by(r@, p@, offset@),
{
    let mut r: Vec<i64> = Vec::new();
    let mut i: usize = 0;
    while i < p.len()
        invariant
            p@.len() == offset@.len(),
            forall|k: int| 0 <= k < p@.len() ==> -0x1_0000_0000_0000 <= #[trigger] p@[k] <= 0x1_0000_0000_0000,
            forall|k: int| 0 <= k < p@.len() ==> -0x1_0000_0000_0000 <= #[trigger] offset@[k] <= 0x1_0000_0000_0000,
            0 <= i <= p@.len(),
            r@.len() == i,
            forall|k: int| 0 <= k < i ==> #[trigger] r@[k] == p@[k] + offset@[k],
        decreases p@.len() - i,
    {
        r.push(p[i] + offset[i]);
        i = i + 1;
    }
    r
}

/// A moved point is as far from where it started as the offset is long.
pub proof fn lemma_moved_distance(c: Seq<i64>, p: Seq<i64>, o: Seq<i64>)
    requires
        moved_by(c, p, o),
    ensures
        dist_sqr(c, p) == norm_sqr(o),
{
    assert forall|i: int| 0 <= i < p.len() implies #[trigger] c[i] - p[i] == o[i] - origin(o)[i] by {}
    lemma_sum_sq_same_diffs(c, p, o, origin(o), p.len() as int);
}

/// A lazy sequence of blue noise samples, produced one per pull.
pub struct BlueNoiseIterator {
    dimensions: Vec<u32>,
    min_distance: u32,
    k_abort: usize,
    samples: Vec<Vec<i64>>,
    bggrid: BackgroundGrid,
    active: Vec<usize>,
    active_idx: usize,
    next_active: Vec<usize>,
    attempts: usize,
}

/// What one step of the generator did.
pub enum Step {
    /// A new sample was accepted.
    Emit(Vec<i64>),
    /// No sample this time; the generator goes on.
    Retry,
    /// No sample can spawn any more.
    End,
}

impl BlueNoiseIterator {
    /// The samples produced so far, in order.
    pub closed spec fn points(&self) -> Seq<Seq<i64>> {
        points_of(self.samples@)
    }

    pub closed spec fn extents(&self) -> Seq<u32> {
        self.dimensions@
    }

    pub closed spec fn min_dist(&self) -> int {
        self.min_distance as int
    }

    pub closed spec fn retries(&self) -> int {
        self.k_abort as int
    }

    /// Ids of the samples that may still spawn in this round.
    pub closed spec fn round(&self) -> Seq<usize> {
        self.active@
    }

    /// Position of the next sample of this round to spawn from.
    pub closed spec fn cursor(&self) -> int {
        self.active_idx as int
    }

    /// Ids of the samples that may spawn in the next round.
    pub closed spec fn pending(&self) -> Seq<usize> {
        self.next_active@
    }

    /// Failed attempts so far around the sample at the cursor.
    pub closed spec fn tries(&self) -> int {
        self.attempts as int
    }

    /// The cursor has passed the end of the round: the next step swaps in
    /// the next round.
    pub open spec fn swaps(&self) -> bool {
        self.cursor() >= self.round().len()
    }

    /// The round that the next step works on.
    pub open spec fn round_now(&self) -> Seq<usize> {
        if self.swaps() {
            self.pending()
        } else {
            self.round()
        }
    }

    pub open spec fn cursor_now(&self) -> int {
        if self.swaps() {
            0
        } else {
            self.cursor()
        }
    }

    pub open spec fn pending_now(&self) -> Seq<usize> {
        if self.swaps() {
            Seq::empty()
        } else {
            self.pending()
        }
    }

    pub open spec fn tries_now(&self) -> int {
        if self.swaps() {
            0
        } else {
            self.tries()
        }
    }

    /// Id of the sample that the next step spawns from.
    pub open spec fn current(&self) -> int {
        self.round_now()[self.cursor_now()] as int
    }

    /// The point that the next step offers for `offset`.
    pub open spec fn candidate(&self, offset: Seq<i64>) -> Seq<i64> {
        shifted(self.points()[self.current() - 1], offset)
    }

    /// Generation has ended: samples exist and none may spawn any more.
    pub closed spec fn finished(&self) -> bool {
        &&& self.samples@.len() > 0
        &&& self.active@.len() == 0
        &&& self.next_active@.len() == 0
    }

    /// Number of grid cells: no more samples than that can be produced.
    pub closed spec fn capacity(&self) -> int {
        self.bggrid.capacity()
    }

    pub closed spec fn wf(&self) -> bool {
        &&& self.bggrid.wf(self.samples@)
        &&& self.bggrid.extents() == self.dimensions@
        &&& self.bggrid.min_dist() == self.min_distance
        &&& forall|k: int|
            0 <= k < self.active@.len() ==> 1 <= #[trigger] self.active@[k] <= self.samples@.len()
        &&& forall|k: int|
            0 <= k < self.next_active@.len() ==> 1 <= #[trigger] self.next_active@[k]
                <= self.samples@.len()
        &&& has_parents(self.points(), self.min_distance as int)
        &&& self.active_idx <= self.active@.len()
        &&& self.attempts <= self.k_abort
    }

    /// Every produced set lies in the domain, keeps the minimum distance,
    /// and has each sample after the first closer than twice the minimum
    /// distance to an earlier one.
    pub proof fn lemma_points(&self)
        requires
            self.wf(),
        ensures
            all_in_domain(self.points(), self.extents()),
            well_separated(self.points(), self.min_dist()),
            has_parents(self.points(), self.min_dist()),
            self.points().len() <= self.capacity(),
    {
        self.bggrid.lemma_samples(self.samples@);
        let pts = self.points();
        assert forall|j: int| 0 <= j < pts.len() implies in_domain(#[trigger] pts[j], self.extents()) by {
            assert(pts[j] == self.samples@[j]@);
        }
        assert forall|i: int, j: int|
            0 <= i < pts.len() && 0 <= j < pts.len() && i != j implies dist_sqr(
            #[trigger] pts[i],
            #[trigger] pts[j],
        ) >= self.min_dist() * self.min_dist() by {
            assert(pts[i] == self.samples@[i]@ && pts[j] == self.samples@[j]@);
        }
    }

    /// Starts a generator over a domain of the given extents.
    pub fn new(dimensions: Vec<u32>, min_distance: u32, k_abort: usize) -> (r: Result<BlueNoiseIterator, GridError>)
        ensures
            r is Err <==> construction_error(dimensions@, min_distance as int) is Some,
            r matches Err(e) ==> construction_error(dimensions@, min_distance as int) == Some(e),
            r matches Ok(it) ==> it.wf() && it.points().len() == 0 && it.extents() == dimensions@
                && it.min_dist() == min_distance && it.retries() == k_abort && it.round().len() == 0
                && it.pending().len() == 0 && it.cursor() == 0 && it.tries() == 0
                && it.capacity() == cell_total(dimensions@, min_distance as int),
    {
        let grid = BackgroundGrid::new(dimensions.clone(), min_distance);
        match grid {
            Err(e) => Err(e),
            Ok(bggrid) => {
                let it = BlueNoiseIterator {
                    dimensions,
                    min_distance,
                    k_abort,
                    samples: Vec::new(),
                    bggrid,
                    active: Vec::new(),
                    active_idx: 0,
                    next_active: Vec::new(),
                    attempts: 0,
                };
                assert(it.points() =~= Seq::empty());
                Ok(it)
            },
        }
    }

    /// Places `point` as the first sample: taken when it lies in the
    /// domain, and then the only sample of the first round.
    pub fn place_first(&mut self, point: Vec<i64>) -> (r: bool)
        requires
            old(self).wf(),
            old(self).points().len() == 0,
            point@.len() == old(self).extents().len(),
        ensures
            final(self).wf(),
            final(self).extents() == old(self).extents(),
            final(self).min_dist() == old(self).min_dist(),
            final(self).retries() == old(self).retries(),
            final(self).capacity() == old(self).capacity(),
            r == in_domain(point@, old(self).extents()),
            r ==> final(self).points() == seq![point@] && final(self).round() == seq![1usize]
                && final(self).cursor() == 0 && final(self).pending().len() == 0
                && final(self).tries() == 0 && !final(self).finished(),
            !r ==> final(self).points() == old(self).points(),
    {
        proof {
            if self.active@.len() > 0 {
                assert(1 <= self.active@[0] <= self.samples@.len());
            }
            if self.next_active@.len() > 0 {
                assert(1 <= self.next_active@[0] <= self.samples@.len());
            }
        }
        let ghost p = point@;
        let ghost old_samples = self.samples@;
        assert(!crate::grid::conflicts(p, old_samples, self.min_distance as int));
        match self.bggrid.insert(point, &mut self.samples) {
            Ok(id) => {
                self.attempts = 0;
                self.active.push(id);
                proof {
                    assert(self.active@ =~= seq![1usize]);
                    assert(self.points() =~= seq![p]);
                    assert forall|k: int| 0 <= k < self.active@.len() implies 1 <= #[trigger] self.active@[k]
                        <= self.samples@.len() by {}
                }
                true
            },
            Err(_) => {
                proof {
                    assert(self.points() =~= old(self).points());
                }
                false
            },
        }
    }

    /// Draws the first sample uniformly from the domain; the grid is empty,
    /// so it is always accepted.
    fn first_sample(&mut self) -> (r: Option<Vec<i64>>)
        requires
            old(self).wf(),
            old(self).samples@.len() == 0,
        ensures
            final(self).wf(),
            final(self).extents() == old(self).extents(),
            final(self).min_dist() == old(self).min_dist(),
            final(self).retries() == old(self).retries(),
            final(self).capacity() == old(self).capacity(),
            r matches Some(p) && final(self).points() == old(self).points().push(p@),
            !final(self).finished(),
            final(self).round() == seq![1usize],
            final(self).cursor() == 0,
            final(self).pending().len() == 0,
            final(self).tries() == 0,
    {
        proof {
            self.bggrid.lemma_samples(self.samples@);
        }
        let dimension = self.dimensions.len();
        let mut initial: Vec<i64> = Vec::new();
        let mut i: usize = 0;
        while i < dimension
            invariant
                dimension == self.dimensions@.len(),
                forall|k: int| 0 <= k < dimension ==> #[trigger] self.dimensions@[k] >= 1,
                0 <= i <= dimension,
                initial@.len() == i,
                forall|k: int| 0 <= k < i ==> 0 <= #[trigger] initial@[k] < self.dimensions@[k],
            decreases dimension - i,
        {
            let x = random_in(0, self.dimensions[i] as i64);
            initial.push(x);
            i = i + 1;
        }
        let kept = initial.clone();
        assert(kept@ =~= initial@);
        assert(in_domain(initial@, self.extents()));
        let placed = self.place_first(initial);
        assert(placed);
        assert(self.points() =~= Seq::<Seq<i64>>::empty().push(kept@));
        Some(kept)
    }

    /// Offers the sample `current_id` moved by `offset` as a new sample.
    /// It is taken when the offset's length lies in `[min_distance,
    /// 2 * min_distance)` and the grid accepts the moved point; then both
    /// ids join the next round.
    pub fn try_offset(&mut self, current_id: usize, offset: &Vec<i64>) -> (r: Option<Vec<i64>>)
        requires
            old(self).wf(),
            1 <= current_id <= old(self).points().len(),
            offset@.len() == old(self).extents().len(),
            forall|i: int| 0 <= i < offset@.len() ==> -0x2_0000_0000 <= #[trigger] offset@[i] <= 0x2_0000_0000,
        ensures
            final(self).wf(),
            final(self).extents() == old(self).extents(),
            final(self).min_dist() == old(self).min_dist(),
            final(self).retries() == old(self).retries(),
            final(self).capacity() == old(self).capacity(),
            final(self).round() == old(self).round(),
            final(self).cursor() == old(self).cursor(),
            final(self).tries() == old(self).tries(),
            r is Some <==> accepts(
                old(self).points(),
                old(self).extents(),
                old(self).min_dist(),
                shifted(old(self).points()[current_id - 1], offset@),
                offset@,
            ),
            r matches Some(p) ==> p@ == shifted(old(self).points()[current_id - 1], offset@)
                && final(self).points() == old(self).points().push(p@)
                && final(self).pending().len() == old(self).pending().len() + 2
                && final(self).pending().drop_last().drop_last() == old(self).pending()
                && final(self).pending()[old(self).pending().len() as int] == current_id
                && final(self).pending().last() == final(self).points().len(),
            r is None ==> final(self).points() == old(self).points()
                && final(self).pending() == old(self).pending(),
    {
        proof {
            self.bggrid.lemma_samples(self.samples@);
        }
        let ghost old_points = self.points();
        let ghost m = self.min_distance as int;
        if !in_annulus(offset, self.min_distance) {
            return None;
        }
        let ghost cur = self.samples@[current_id - 1]@;
        assert(cur == old_points[current_id - 1]);
        assert(in_domain(cur, self.bggrid.extents()));
        let candidate = offset_point(&self.samples[current_id - 1], offset);
        assert(candidate@ =~= shifted(cur, offset@));
        let kept = candidate.clone();
        assert(kept@ =~= candidate@);
        let ghost old_samples = self.samples@;
        proof {
            lemma_conflicts_points(candidate@, old_samples, m);
        }
        match self.bggrid.insert(candidate, &mut self.samples) {
            Ok(new_id) => {
                self.next_active.push(current_id);
                self.next_active.push(new_id);
                proof {
                    let pts = self.points();
                    assert(pts =~= old_points.push(kept@));
                    assert(self.next_active@.drop_last().drop_last() =~= old(self).next_active@);
                    lemma_moved_distance(kept@, cur, offset@);
                    assert(dist_sqr(kept@, old_points[current_id - 1]) < 4 * m * m);
                    lemma_push_with_parent(old_points, kept@, current_id - 1, m);
                    assert forall|k: int| 0 <= k < self.next_active@.len() implies 1 <= #[trigger] self.next_active@[k]
                        <= self.samples@.len() by {
                        if k < old(self).next_active@.len() {
                            assert(self.next_active@[k] == old(self).next_active@[k]);
                        }
                    }
                    assert forall|k: int| 0 <= k < self.active@.len() implies 1 <= #[trigger] self.active@[k]
                        <= self.samples@.len() by {
                        assert(self.active@[k] == old(self).active@[k]);
                    }
                }
                Some(kept)
            },
            Err(_) => {
                proof {
                    assert(self.points() =~= old_points);
                }
                None
            },
        }
    }

    /// One transition of the generator. When the cursor has passed the end
    /// of the round, the next round is swapped in first; an empty round
    /// ends generation. A sample that has used up its `k_abort` attempts is
    /// dropped and the cursor moves on. Otherwise the sample at the cursor
    /// is moved by `offset`: an accepted point is emitted, the cursor moves
    /// on and both ids join the next round; else one attempt is spent. No
    /// offset counts as a failed attempt.
    pub fn step(&mut self, offset: Option<Vec<i64>>) -> (r: Step)
        requires
            old(self).wf(),
            old(self).points().len() > 0,
            offset matches Some(o) ==> o@.len() == old(self).extents().len() && forall|i: int|
                0 <= i < o@.len() ==> -0x2_0000_0000 <= #[trigger] o@[i] <= 0x2_0000_0000,
        ensures
            final(self).wf(),
            final(self).extents() == old(self).extents(),
            final(self).min_dist() == old(self).min_dist(),
            final(self).retries() == old(self).retries(),
            final(self).capacity() == old(self).capacity(),
            old(self).round_now().len() == 0 ==> r is End && final(self).round().len() == 0
                && final(self).pending().len() == 0 && final(self).cursor() == 0
                && final(self).tries() == 0 && final(self).points() == old(self).points(),
            old(self).round_now().len() > 0 && old(self).tries_now() >= old(self).retries() ==> r is Retry
                && final(self).round() == old(self).round_now()
                && final(self).cursor() == old(self).cursor_now() + 1
                && final(self).pending() == old(self).pending_now() && final(self).tries() == 0
                && final(self).points() == old(self).points(),
            old(self).round_now().len() > 0 && old(self).tries_now() < old(self).retries() ==> final(self).round()
                == old(self).round_now() && if offset is Some && accepts(
                old(self).points(),
                old(self).extents(),
                old(self).min_dist(),
                old(self).candidate(offset->0@),
                offset->0@,
            ) {
                r matches Step::Emit(p) && p@ == old(self).candidate(offset->0@) && final(self).points()
                    == old(self).points().push(p@) && final(self).cursor() == old(self).cursor_now() + 1
                    && final(self).pending().len() == old(self).pending_now().len() + 2
                    && final(self).pending().drop_last().drop_last() == old(self).pending_now()
                    && final(self).pending()[old(self).pending_now().len() as int] == old(self).current()
                    && final(self).pending().last() == final(self).points().len() && final(self).tries() == 0
            } else {
                r is Retry && final(self).points() == old(self).points() && final(self).cursor()
                    == old(self).cursor_now() && final(self).pending() == old(self).pending_now()
                    && final(self).tries() == old(self).tries_now() + 1
            },
    {
        if self.active_idx >= self.active.len() {
            self.active_idx = 0;
            self.attempts = 0;
            std::mem::swap(&mut self.active, &mut self.next_active);
            self.next_active.clear();
            if self.active.len() == 0 {
                return Step::End;
            }
        }
        if self.attempts >= self.k_abort {
            self.active_idx = self.active_idx + 1;
            self.attempts = 0;
            return Step::Retry;
        }
        let current_id = self.active[self.active_idx];
        let got = match offset {
            Some(o) => self.try_offset(current_id, &o),
            None => None,
        };
        match got {
            Some(p) => {
                self.active_idx = self.active_idx + 1;
                self.attempts = 0;
                Step::Emit(p)
            },
            None => {
                self.attempts = self.attempts + 1;
                Step::Retry
            },
        }
    }

    /// Produces the next sample, or `None` once no sample can spawn any more.
    /// Candidates are drawn on the integer lattice: each offset is uniform
    /// among the lattice points of the cube of half-edge `2 * min_distance`
    /// and kept only inside the shell `[min_distance, 2 * min_distance)`;
    /// after `OFFSET_DRAWS` draws outside the shell the attempt counts as
    /// failed. Offsets from any other scheme (radius and angles) can be fed
    /// through `step` instead.
    pub fn next(&mut self) -> (r: Option<Vec<i64>>)
        requires
            old(self).wf(),
        ensures
            final(self).wf(),
            final(self).extents() == old(self).extents(),
            final(self).min_dist() == old(self).min_dist(),
            final(self).retries() == old(self).retries(),
            final(self).capacity() == old(self).capacity(),
            r matches Some(p) ==> final(self).points() == old(self).points().push(p@),
            r is None ==> final(self).points() == old(self).points(),
            old(self).points().len() == 0 ==> r is Some && final(self).round() == seq![1usize]
                && final(self).cursor() == 0 && final(self).pending().len() == 0,
            old(self).points().len() > 0 && r is Some ==> ({
                let pend = final(self).pending();
                &&& pend.len() >= 2
                &&& pend[pend.len() - 1] == final(self).points().len()
                &&& 1 <= final(self).cursor() <= final(self).round().len()
                &&& pend[pend.len() - 2] == final(self).round()[final(self).cursor() - 1]
            }),
            old(self).retries() == 0 && old(self).points().len() > 0 ==> r is None,
            r is None <==> final(self).finished(),
            r is None ==> final(self).round().len() == 0 && final(self).pending().len() == 0,
            old(self).finished() ==> r is None,
            old(self).points().len() > 0 && old(self).swaps() && old(self).pending().len() == 0 ==> r is None,
    {
        if self.samples.len() == 0 {
            return self.first_sample();
        }
        let dimension = self.dimensions.len();
        let mut swapped = false;
        loop
            invariant
                self.wf(),
                dimension == self.dimensions@.len(),
                self.dimensions@ == old(self).dimensions@,
                self.min_distance == old(self).min_distance,
                self.k_abort == old(self).k_abort,
                self.bggrid.capacity() == old(self).bggrid.capacity(),
                self.points() == old(self).points(),
                self.samples@.len() > 0,
                swapped ==> self.next_active@.len() == 0,
                old(self).finished() ==> self.finished() && !swapped,
                old(self).swaps() && old(self).pending().len() == 0 ==> self.swaps()
                    && self.pending().len() == 0 && !swapped,
            decreases (if swapped {
                0int
            } else {
                1int
            }), self.active@.len() - self.active_idx, self.k_abort - self.attempts,
        {
            proof {
                self.bggrid.lemma_samples(self.samples@);
            }
            let offset = if self.k_abort > 0 {
                draw_offset(dimension, self.min_distance)
            } else {
                None
            };
            let will_swap = self.active_idx >= self.active.len();
            match self.step(offset) {
                Step::Emit(p) => {
                    return Some(p);
                },
                Step::End => {
                    return None;
                },
                Step::Retry => {},
            }
            if will_swap {
                swapped = true;
            }
        }
    }
}

/// Starts a lazy generator of blue noise samples over a domain of the given
/// extents.
pub fn blue_noise_iter(dimensions: Vec<u32>, min_distance: u32, k_abort: usize) -> (r: Result<BlueNoiseIterator, GridError>)
    ensures
        r is Err <==> construction_error(dimensions@, min_distance as int) is Some,
        r matches Err(e) ==> construction_error(dimensions@, min_distance as int) == Some(e),
        r matches Ok(it) ==> it.wf() && it.points().len() == 0 && it.extents() == dimensions@
            && it.min_dist() == min_distance && it.retries() == k_abort && it.round().len() == 0
            && it.pending().len() == 0 && it.cursor() == 0 && it.tries() == 0
            && it.capacity() == cell_total(dimensions@, min_distance as int),
{
    BlueNoiseIterator::new(dimensions, min_distance, k_abort)
}

/// Generates blue noise samples until no sample can spawn any more, and
/// returns them in order of generation. Candidates are drawn as `next`
/// draws them; to use another offset scheme, drive `step` directly.
pub fn blue_noise(dimensions: Vec<u32>, min_distance: u32, k_abort: usize) -> (r: Result<Vec<Vec<i64>>, GridError>)
    ensures
        r is Err <==> construction_error(dimensions@, min_distance as int) is Some,
        r matches Err(e) ==> construction_error(dimensions@, min_distance as int) == Some(e),
        r matches Ok(v) ==> v@.len() >= 1 && v@.len() <= cell_total(dimensions@, min_distance as int)
            && all_in_domain(points_of(v@), dimensions@) && well_separated(
            points_of(v@),
            min_distance as int,
        ) && has_parents(points_of(v@), min_distance as int) && (k_abort == 0 ==> v@.len() == 1),
{
    let mut it = match BlueNoiseIterator::new(dimensions, min_distance, k_abort) {
        Err(e) => {
            return Err(e);
        },
        Ok(it) => it,
    };
    let ghost cap = it.capacity();
    assert(cap == cell_total(dimensions@, min_distance as int));
    let ghost extents = it.extents();
    let mut going = true;
    while going
        invariant
            it.wf(),
            it.capacity() == cap,
            it.extents() == extents,
            extents == dimensions@,
            it.min_dist() == min_distance,
            it.retries() == k_abort,
            !going ==> it.points().len() >= 1,
            k_abort == 0 ==> it.points().len() <= 1,
        decreases (if going {
            cap - it.points().len() + 1
        } else {
            0
        }),
    {
        proof {
            it.lemma_points();
        }
        match it.next() {
            Some(_) => {},
            None => {
                going = false;
            },
        }
    }
    proof {
        it.lemma_points();
    }
    Ok(it.samples)
}

} // verus!
