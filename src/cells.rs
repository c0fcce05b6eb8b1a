//! Cells of edge `min_distance / sqrt(d)` in `d` axes, computed exactly on
//! integers: every comparison with the irrational edge is made on squares.
use vstd::prelude::*;

verus! {

/// `k` is the floor of the square root of `n / a`.
pub open spec fn floor_root_ok(k: int, n: int, a: int) -> bool {
    &&& k >= 0
    &&& k * k * a <= n
    &&& n < (k + 1) * (k + 1) * a
}

/// Floor of the square root of `n / a`.
pub open spec fn floor_root(n: int, a: int) -> int {
    choose|k: int| #[trigger] floor_root_ok(k, n, a)
}

/// Ceiling of the square root of `n / a`.
pub open spec fn ceil_root(n: int, a: int) -> int {
    let k = floor_root(n, a);
    if k * k * a == n {
        k
    } else {
        k + 1
    }
}

/// Index of the cell that holds coordinate `x`: `floor(x * sqrt(d) / m)`.
pub open spec fn cell_index(x: int, m: int, d: int) -> int {
    floor_root(d * x * x, m * m)
}

/// Number of cells along an axis of extent `e`: `ceil(e * sqrt(d) / m)`.
pub open spec fn cell_count_of(e: int, m: int, d: int) -> int {
    ceil_root(d * e * e, m * m)
}

/// Cells to look at on each side of a cell: `ceil(m / edge) = ceil(sqrt(d))`.
pub open spec fn cell_reach(d: int) -> int {
    ceil_root(d, 1)
}

proof fn lemma_floor_root_unique(k: int, j: int, n: int, a: int)
    requires
        a >= 1,
        floor_root_ok(k, n, a),
        floor_root_ok(j, n, a),
    ensures
        k == j,
{
    if k < j {
        assert((k + 1) * (k + 1) * a <= j * j * a) by (nonlinear_arith)
            requires
                0 <= k + 1 <= j,
                a >= 1,
        ;
    } else if j < k {
        assert((j + 1) * (j + 1) * a <= k * k * a) by (nonlinear_arith)
            requires
                0 <= j + 1 <= k,
                a >= 1,
        ;
    }
}

proof fn lemma_floor_root_exists(n: int, a: int)
    requires
        n >= 0,
        a >= 1,
    ensures
        exists|k: int| #[trigger] floor_root_ok(k, n, a),
    decreases n,
{
    if n == 0 {
        assert(0 * 0 * a <= 0 && 0 < 1 * 1 * a) by (nonlinear_arith)
            requires
                a >= 1,
        ;
        assert(floor_root_ok(0, 0, a));
    } else {
        lemma_floor_root_exists(n - 1, a);
        let k = choose|k: int| #[trigger] floor_root_ok(k, n - 1, a);
        if n < (k + 1) * (k + 1) * a {
            assert(floor_root_ok(k, n, a));
        } else {
            assert((k + 1) * (k + 1) * a < (k + 2) * (k + 2) * a) by (nonlinear_arith)
                requires
                    k >= 0,
                    a >= 1,
            ;
            assert(floor_root_ok(k + 1, n, a));
        }
    }
}

/// The floor root is the one `k` that brackets `n / a`.
pub proof fn lemma_floor_root(n: int, a: int)
    requires
        n >= 0,
        a >= 1,
    ensures
        floor_root_ok(floor_root(n, a), n, a),
        forall|k: int| #[trigger] floor_root_ok(k, n, a) ==> k == floor_root(n, a),
{
    lemma_floor_root_exists(n, a);
    assert forall|k: int| #[trigger] floor_root_ok(k, n, a) implies k == floor_root(n, a) by {
        lemma_floor_root_unique(k, floor_root(n, a), n, a);
    }
}

/// The ceiling root `c` is the least with `c^2 a >= n`.
pub proof fn lemma_ceil_root(n: int, a: int)
    requires
        n >= 0,
        a >= 1,
    ensures
        ceil_root(n, a) >= 0,
        ceil_root(n, a) * ceil_root(n, a) * a >= n,
        ceil_root(n, a) == 0 || (ceil_root(n, a) - 1) * (ceil_root(n, a) - 1) * a < n,
{
    lemma_floor_root(n, a);
    let k = floor_root(n, a);
    if k * k * a == n && k >= 1 {
        assert((k - 1) * (k - 1) * a < k * k * a) by (nonlinear_arith)
            requires
                k >= 1,
                a >= 1,
        ;
    }
    if k * k * a != n {
        assert((k + 1) * (k + 1) * a >= n);
    }
}

pub proof fn lemma_sq_le(p: int, q: int)
    requires
        p >= 0,
        q >= 0,
        p * p <= q * q,
    ensures
        p <= q,
{
    if p > q {
        assert(p * p > q * q) by (nonlinear_arith)
            requires
                p > q,
                q >= 0,
        ;
    }
}

pub proof fn lemma_sq_lt(p: int, q: int)
    requires
        p >= 0,
        q >= 0,
        p * p < q * q,
    ensures
        p < q,
{
    if p >= q {
        assert(p * p >= q * q) by (nonlinear_arith)
            requires
                p >= q,
                q >= 0,
        ;
    }
}

/// `sqrt(d) * y < p` and `sqrt(d) * e <= q` give `sqrt(d) * (y + e) < p + q`.
proof fn lemma_upper_add(y: int, e: int, p: int, q: int, d: int)
    requires
        y >= 0,
        e >= 0,
        p >= 0,
        q >= 0,
        d >= 0,
        d * y * y < p * p,
        d * e * e <= q * q,
    ensures
        d * (y + e) * (y + e) < (p + q) * (p + q),
{
    assert((p * q) * (p * q) >= (d * y * e) * (d * y * e)) by (nonlinear_arith)
        requires
            0 <= d * y * y < p * p,
            0 <= d * e * e <= q * q,
    ;
    assert(d * y * e >= 0) by (nonlinear_arith)
        requires
            d >= 0,
            y >= 0,
            e >= 0,
    ;
    assert(p * q >= 0) by (nonlinear_arith)
        requires
            p >= 0,
            q >= 0,
    ;
    lemma_sq_le(d * y * e, p * q);
    assert(d * (y + e) * (y + e) == d * y * y + 2 * (d * y * e) + d * e * e) by (nonlinear_arith);
    assert((p + q) * (p + q) == p * p + 2 * (p * q) + q * q) by (nonlinear_arith);
}

/// `sqrt(d) * y >= p` and `sqrt(d) * e >= q` give `sqrt(d) * (y + e) >= p + q`.
proof fn lemma_lower_add(y: int, e: int, p: int, q: int, d: int)
    requires
        y >= 0,
        e >= 0,
        p >= 0,
        q >= 0,
        d >= 0,
        d * y * y >= p * p,
        d * e * e >= q * q,
    ensures
        d * (y + e) * (y + e) >= (p + q) * (p + q),
{
    assert((d * y * e) * (d * y * e) >= (p * q) * (p * q)) by (nonlinear_arith)
        requires
            d * y * y >= p * p >= 0,
            d * e * e >= q * q >= 0,
    ;
    assert(d * y * e >= 0) by (nonlinear_arith)
        requires
            d >= 0,
            y >= 0,
            e >= 0,
    ;
    assert(p * q >= 0) by (nonlinear_arith)
        requires
            p >= 0,
            q >= 0,
    ;
    lemma_sq_le(p * q, d * y * e);
    assert(d * (y + e) * (y + e) == d * y * y + 2 * (d * y * e) + d * e * e) by (nonlinear_arith);
    assert((p + q) * (p + q) == p * p + 2 * (p * q) + q * q) by (nonlinear_arith);
}

pub proof fn lemma_cell_index(x: int, m: int, d: int)
    requires
        x >= 0,
        m >= 1,
        d >= 1,
    ensures
        floor_root_ok(cell_index(x, m, d), d * x * x, m * m),
{
    assert(d * x * x >= 0 && m * m >= 1) by (nonlinear_arith)
        requires
            x >= 0,
            m >= 1,
            d >= 1,
    ;
    lemma_floor_root(d * x * x, m * m);
}

/// A coordinate inside `[0, e)` falls in a cell below the axis' count.
pub proof fn lemma_cell_in_grid(x: int, e: int, m: int, d: int)
    requires
        0 <= x < e,
        m >= 1,
        d >= 1,
    ensures
        0 <= cell_index(x, m, d) < cell_count_of(e, m, d),
{
    lemma_cell_index(x, m, d);
    assert(d * e * e >= 0 && m * m >= 1 && d * x * x < d * e * e) by (nonlinear_arith)
        requires
            0 <= x < e,
            m >= 1,
            d >= 1,
    ;
    lemma_ceil_root(d * e * e, m * m);
    let k = cell_index(x, m, d);
    let c = cell_count_of(e, m, d);
    assert((k * m) * (k * m) < (c * m) * (c * m)) by (nonlinear_arith)
        requires
            k * k * (m * m) <= d * x * x,
            d * x * x < d * e * e,
            c * c * (m * m) >= d * e * e,
    ;
    assert(k * m >= 0 && c * m >= 0) by (nonlinear_arith)
        requires
            k >= 0,
            c >= 0,
            m >= 1,
    ;
    lemma_sq_lt(k * m, c * m);
    assert(k < c) by (nonlinear_arith)
        requires
            k * m < c * m,
            m >= 1,
    ;
}

proof fn lemma_near_cells_ordered(x: int, y: int, m: int, d: int)
    requires
        0 <= y <= x,
        x - y < m,
        m >= 1,
        d >= 1,
    ensures
        0 <= cell_index(x, m, d) - cell_index(y, m, d) <= cell_reach(d),
{
    lemma_cell_index(x, m, d);
    lemma_cell_index(y, m, d);
    lemma_ceil_root(d, 1);
    let kx = cell_index(x, m, d);
    let ky = cell_index(y, m, d);
    let o = cell_reach(d);
    let e = x - y;
    assert(o >= 1) by (nonlinear_arith)
        requires
            o >= 0,
            o * o * 1 >= d,
            d >= 1,
    ;
    // ky <= kx
    assert(d * y * y <= d * x * x) by (nonlinear_arith)
        requires
            0 <= y <= x,
            d >= 1,
    ;
    assert((ky * m) * (ky * m) < ((kx + 1) * m) * ((kx + 1) * m)) by (nonlinear_arith)
        requires
            ky * ky * (m * m) <= d * y * y,
            d * y * y <= d * x * x,
            d * x * x < (kx + 1) * (kx + 1) * (m * m),
    ;
    assert(d * y * y <= d * x * x) by (nonlinear_arith)
        requires
            0 <= y <= x,
            d >= 1,
    ;
    assert(ky * m >= 0 && (kx + 1) * m >= 0) by (nonlinear_arith)
        requires
            ky >= 0,
            kx >= 0,
            m >= 1,
    ;
    lemma_sq_lt(ky * m, (kx + 1) * m);
    assert(ky < kx + 1) by (nonlinear_arith)
        requires
            ky * m < (kx + 1) * m,
            m >= 1,
    ;
    // kx <= ky + o
    assert(d * y * y < ((ky + 1) * m) * ((ky + 1) * m)) by (nonlinear_arith)
        requires
            d * y * y < (ky + 1) * (ky + 1) * (m * m),
    ;
    assert(d * e * e <= (o * e) * (o * e)) by (nonlinear_arith)
        requires
            o * o * 1 >= d,
            e >= 0,
    ;
    assert(o * e >= 0 && (ky + 1) * m >= 0) by (nonlinear_arith)
        requires
            o >= 0,
            e >= 0,
            ky >= 0,
            m >= 1,
    ;
    lemma_upper_add(y, e, (ky + 1) * m, o * e, d);
    assert(y + e == x);
    assert((kx * m) * (kx * m) < ((ky + 1) * m + o * e) * ((ky + 1) * m + o * e)) by (nonlinear_arith)
        requires
            kx * kx * (m * m) <= d * x * x,
            d * x * x < ((ky + 1) * m + o * e) * ((ky + 1) * m + o * e),
    ;
    assert(kx * m >= 0) by (nonlinear_arith)
        requires
            kx >= 0,
            m >= 1,
    ;
    lemma_sq_lt(kx * m, (ky + 1) * m + o * e);
    assert(kx <= ky + o) by (nonlinear_arith)
        requires
            kx * m < (ky + 1) * m + o * e,
            0 <= e <= m - 1,
            o >= 1,
            m >= 1,
    ;
}

/// Coordinates closer than `m` lie in cells at most `ceil(sqrt(d))` apart.
pub proof fn lemma_near_cells(x: int, y: int, m: int, d: int)
    requires
        0 <= x,
        0 <= y,
        m >= 1,
        d >= 1,
        (x - y) * (x - y) < m * m,
    ensures
        cell_index(x, m, d) - cell_index(y, m, d) <= cell_reach(d),
        cell_index(y, m, d) - cell_index(x, m, d) <= cell_reach(d),
{
    assert(x - y < m && y - x < m) by (nonlinear_arith)
        requires
            (x - y) * (x - y) < m * m,
            m >= 1,
    ;
    lemma_ceil_root(d, 1);
    assert(cell_reach(d) >= 1) by (nonlinear_arith)
        requires
            cell_reach(d) >= 0,
            cell_reach(d) * cell_reach(d) * 1 >= d,
            d >= 1,
    ;
    if y <= x {
        lemma_near_cells_ordered(x, y, m, d);
    } else {
        lemma_near_cells_ordered(y, x, m, d);
    }
}

proof fn lemma_same_cell_ordered(x: int, y: int, m: int, d: int)
    requires
        0 <= y <= x,
        m >= 1,
        d >= 1,
        cell_index(x, m, d) == cell_index(y, m, d),
    ensures
        d * (x - y) * (x - y) < m * m,
{
    lemma_cell_index(x, m, d);
    lemma_cell_index(y, m, d);
    let k = cell_index(x, m, d);
    let e = x - y;
    if d * e * e >= m * m {
        assert(d * y * y >= (k * m) * (k * m)) by (nonlinear_arith)
            requires
                k * k * (m * m) <= d * y * y,
        ;
        assert(k * m >= 0) by (nonlinear_arith)
            requires
                k >= 0,
                m >= 1,
        ;
        lemma_lower_add(y, e, k * m, m, d);
        assert(y + e == x);
        assert(d * x * x >= (k + 1) * (k + 1) * (m * m)) by (nonlinear_arith)
            requires
                d * x * x >= (k * m + m) * (k * m + m),
        ;
    }
}

/// Coordinates in one cell are closer than `m / sqrt(d)`.
pub proof fn lemma_same_cell(x: int, y: int, m: int, d: int)
    requires
        0 <= x,
        0 <= y,
        m >= 1,
        d >= 1,
        cell_index(x, m, d) == cell_index(y, m, d),
    ensures
        d * (x - y) * (x - y) < m * m,
{
    if y <= x {
        lemma_same_cell_ordered(x, y, m, d);
    } else {
        lemma_same_cell_ordered(y, x, m, d);
        assert(d * (x - y) * (x - y) == d * (y - x) * (y - x)) by (nonlinear_arith);
    }
}

/// Floor of the square root of `n / a`, found by bisection below `hi`.
fn floor_root_below(n: u128, a: u128, hi: u128) -> (k: u128)
    requires
        a >= 1,
        n < hi * hi * a,
        hi * hi * a <= u128::MAX,
    ensures
        floor_root_ok(k as int, n as int, a as int),
        k < hi,
{
    let mut lo: u128 = 0;
    let mut top: u128 = hi;
    assert(0 * 0 * a == 0) by (nonlinear_arith);
    while top - lo > 1
        invariant
            a >= 1,
            hi * hi * a <= u128::MAX,
            lo < top <= hi,
            lo * lo * a <= n,
            n < top * top * a,
        decreases top - lo,
    {
        let mid = lo + (top - lo) / 2;
        assert(mid * mid * a <= hi * hi * a) by (nonlinear_arith)
            requires
                0 <= mid <= hi,
                a >= 1,
        ;
        assert(mid * mid <= mid * mid * a) by (nonlinear_arith)
            requires
                a >= 1,
        ;
        if mid * mid * a <= n {
            lo = mid;
        } else {
            top = mid;
        }
    }
    assert(top == lo + 1);
    lo
}

/// `ceil(sqrt(d))`: how many cells to look at on each side.
pub fn reach_of(d: u64) -> (o: u64)
    requires
        1 <= d <= 0x2000_0000_0000_0000,
    ensures
        o == cell_reach(d as int),
        1 <= o <= 0x8000_0000,
{
    let k = floor_root_below(d as u128, 1, 0x8000_0000);
    proof {
        lemma_floor_root(d as int, 1);
        lemma_ceil_root(d as int, 1);
    }
    let o = if k * k == d as u128 { k } else { k + 1 };
    assert(o as int == cell_reach(d as int));
    assert(o >= 1) by (nonlinear_arith)
        requires
            o * o * 1 >= d,
            d >= 1,
            o >= 0,
    ;
    o as u64
}

/// Index of the cell that holds coordinate `x`.
pub fn index_of(x: u64, m: u32, d: u64, o: u64) -> (k: u64)
    requires
        x <= u32::MAX,
        m >= 1,
        1 <= d <= 0x2000_0000_0000_0000,
        o == cell_reach(d as int),
        o <= 0x8000_0000,
    ensures
        k == cell_index(x as int, m as int, d as int),
{
    proof {
        lemma_ceil_root(d as int, 1);
    }
    assert(o * x <= 0x8000_0000 * 0xffff_ffff) by (nonlinear_arith)
        requires
            0 <= o <= 0x8000_0000,
            0 <= x <= 0xffff_ffff,
    ;
    let ox: u128 = (o as u128) * (x as u128);
    let mm: u128 = m as u128;
    let hi: u128 = ox / mm + 1;
    assert(hi * mm > ox && hi * mm <= ox + mm) by (nonlinear_arith)
        requires
            hi == ox / mm + 1,
            mm >= 1,
            ox >= 0,
    ;
    let hm: u128 = hi * mm;
    assert(hm * hm <= 0xffff_ffff_ffff_ffff_ffff_ffff_ffff_ffff) by (nonlinear_arith)
        requires
            0 <= hm <= 0xffff_ffff_ffff_ffff,
    ;
    assert(hm * hm == hi * hi * (mm * mm)) by (nonlinear_arith)
        requires
            hm == hi * mm,
    ;
    assert(d * x * x <= ox * ox) by (nonlinear_arith)
        requires
            ox == o * x,
            o * o * 1 >= d,
            x >= 0,
            d >= 0,
    ;
    assert(ox * ox < hm * hm) by (nonlinear_arith)
        requires
            0 <= ox < hm,
    ;
    assert(d * x <= 0x2000_0000_0000_0000 * 0xffff_ffff && d * x * x <= 0x2000_0000_0000_0000
        * 0xffff_ffff * 0xffff_ffff) by (nonlinear_arith)
        requires
            1 <= d <= 0x2000_0000_0000_0000,
            0 <= x <= 0xffff_ffff,
    ;
    let n: u128 = (d as u128) * (x as u128) * (x as u128);
    assert(1 <= mm * mm <= 0xffff_ffff_ffff_ffff) by (nonlinear_arith)
        requires
            1 <= mm <= 0xffff_ffff,
    ;
    let a: u128 = mm * mm;
    let k = floor_root_below(n, a, hi);
    proof {
        lemma_floor_root(n as int, a as int);
    }
    assert(k < 0x1_0000_0000_0000_0000) by (nonlinear_arith)
        requires
            k < hi,
            hi * mm <= 0xffff_ffff_ffff_ffff,
            mm >= 1,
    ;
    k as u64
}

/// Number of cells along an axis of extent `e`.
pub fn count_of(e: u64, m: u32, d: u64, o: u64) -> (c: u64)
    requires
        1 <= e <= u32::MAX,
        m >= 1,
        1 <= d <= 0x2000_0000_0000_0000,
        o == cell_reach(d as int),
        o <= 0x8000_0000,
    ensures
        c == cell_count_of(e as int, m as int, d as int),
        c >= 1,
{
    let k = index_of(e, m, d, o);
    proof {
        lemma_cell_index(e as int, m as int, d as int);
        lemma_cell_in_grid(0, e as int, m as int, d as int);
    }
    assert(k * m <= 0xffff_ffff_ffff_ffff * 0x1_0000_0000) by (nonlinear_arith)
        requires
            k <= 0xffff_ffff_ffff_ffff,
            m <= 0xffff_ffff,
    ;
    let km: u128 = (k as u128) * (m as u128);
    assert(d * e <= 0x2000_0000_0000_0000 * 0xffff_ffff && d * e * e <= 0x2000_0000_0000_0000
        * 0xffff_ffff * 0xffff_ffff) by (nonlinear_arith)
        requires
            1 <= d <= 0x2000_0000_0000_0000,
            0 <= e <= 0xffff_ffff,
    ;
    let n: u128 = (d as u128) * (e as u128) * (e as u128);
    assert(km * km == k * k * (m * m)) by (nonlinear_arith)
        requires
            km == k * m,
    ;
    assert(km * km <= n) by (nonlinear_arith)
        requires
            km * km == k * k * (m * m),
            k * k * (m * m) <= d * e * e,
            n == d * e * e,
    ;
    if km * km == n {
        proof {
            lemma_cell_in_grid(e as int - 1, e as int, m as int, d as int);
        }
        k
    } else {
        assert(k < 0xffff_ffff_ffff_ffff) by (nonlinear_arith)
            requires
                (k * m) * (k * m) < n,
                n <= 0x2000_0000_0000_0000 * 0xffff_ffff * 0xffff_ffff,
                m >= 1,
                k >= 0,
        ;
        k + 1
    }
}

} // verus!
