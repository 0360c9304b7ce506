use vstd::prelude::*;
use crate::geometry::{Point, INFINITE_DISTANCE, dist, isqrt, point_distance, integer_sqrt, lemma_dist_bound, lemma_isqrt_monotonic};

verus! {

/// The infinite distance, as an integer.
pub open spec fn inf() -> int {
    INFINITE_DISTANCE as int
}

/// Addition that stops at the infinite distance.
pub open spec fn sat_add(x: int, y: int) -> int {
    if x + y >= inf() {
        inf()
    } else {
        x + y
    }
}

pub open spec fn min3(x: int, y: int, z: int) -> int {
    if x <= y && x <= z {
        x
    } else if y <= z {
        y
    } else {
        z
    }
}

/// Cell `(i, j)` lies inside the Sakoe-Chiba band of half-width `w`.
pub open spec fn in_band(i: int, j: int, w: int) -> bool {
    i - j <= w && j - i <= w
}

/// The least cumulative cost of aligning `a[0..=i]` with `b[0..=j]` by a
/// monotonic warping path that stays inside the band; infinite where no such
/// path exists.
pub open spec fn dtw_cell(a: Seq<Point>, b: Seq<Point>, w: int, i: int, j: int) -> int
    decreases i + j + 2,
{
    if i < 0 || j < 0 || i >= a.len() || j >= b.len() || !in_band(i, j, w) {
        inf()
    } else if i == 0 && j == 0 {
        dist(a[0], b[0]) as int
    } else {
        sat_add(
            min3(dtw_cell(a, b, w, i - 1, j), dtw_cell(a, b, w, i, j - 1), dtw_cell(a, b, w, i - 1, j - 1)),
            dist(a[i], b[j]) as int,
        )
    }
}

/// The dynamic-time-warping distance between two paths under a band of
/// half-width `w`; infinite if either path is empty or the band admits no
/// alignment.
pub open spec fn dtw_distance(a: Seq<Point>, b: Seq<Point>, w: int) -> int {
    if a.len() == 0 || b.len() == 0 {
        inf()
    } else {
        dtw_cell(a, b, w, a.len() - 1, b.len() - 1)
    }
}

/// The endpoint (Kim) lower bound: the first points of any alignment are
/// matched to each other, and so are the last points. When both paths are a
/// single point, these two cells are one.
pub open spec fn endpoint_bound(a: Seq<Point>, b: Seq<Point>) -> int {
    if a.len() == 1 && b.len() == 1 {
        dist(a[0], b[0]) as int
    } else {
        (dist(a[0], b[0]) + dist(a.last(), b.last())) as int
    }
}

proof fn lemma_cell_range(a: Seq<Point>, b: Seq<Point>, w: int, i: int, j: int)
    ensures
        0 <= dtw_cell(a, b, w, i, j) <= inf(),
    decreases i + j + 2,
{
    if i < 0 || j < 0 || i >= a.len() || j >= b.len() || !in_band(i, j, w) {
    } else if i == 0 && j == 0 {
        lemma_dist_bound(a[0], b[0]);
    } else {
        lemma_cell_range(a, b, w, i - 1, j);
        lemma_cell_range(a, b, w, i, j - 1);
        lemma_cell_range(a, b, w, i - 1, j - 1);
    }
}

/// Every warping distance lies between zero and the infinite distance.
pub proof fn lemma_dtw_range(a: Seq<Point>, b: Seq<Point>, w: int)
    ensures
        0 <= dtw_distance(a, b, w) <= inf(),
{
    if a.len() > 0 && b.len() > 0 {
        lemma_cell_range(a, b, w, a.len() - 1, b.len() - 1);
    }
}

/// A lower bound that holds of every cell of row `i` holds of every cell of
/// every later row: each warping path crosses every row.
pub proof fn lemma_row_bound(a: Seq<Point>, b: Seq<Point>, w: int, i: int, v: int, i2: int, j2: int)
    requires
        0 <= i <= i2,
        v <= inf(),
        forall|j: int| #[trigger] dtw_cell(a, b, w, i, j) >= v,
    ensures
        dtw_cell(a, b, w, i2, j2) >= v,
    decreases i2 - i, j2 + 1,
{
    if i2 == i {
        assert(dtw_cell(a, b, w, i, j2) >= v);
    } else if j2 < 0 || j2 >= b.len() || i2 >= a.len() || !in_band(i2, j2, w) {
    } else {
        lemma_row_bound(a, b, w, i, v, i2 - 1, j2);
        lemma_row_bound(a, b, w, i, v, i2 - 1, j2 - 1);
        lemma_row_bound(a, b, w, i, v, i2, j2 - 1);
    }
}

proof fn lemma_first_row_at_least_origin(a: Seq<Point>, b: Seq<Point>, w: int, j: int)
    requires
        a.len() > 0,
        b.len() > 0,
        w >= 0,
    ensures
        dtw_cell(a, b, w, 0, j) >= dist(a[0], b[0]),
    decreases j + 1,
{
    lemma_dist_bound(a[0], b[0]);
    if j > 0 {
        lemma_first_row_at_least_origin(a, b, w, j - 1);
        lemma_cell_range(a, b, w, -1, j);
        lemma_cell_range(a, b, w, -1, j - 1);
    }
}

/// Every cell costs at least the distance between the two first points.
proof fn lemma_cell_at_least_origin(a: Seq<Point>, b: Seq<Point>, w: int, i: int, j: int)
    requires
        a.len() > 0,
        b.len() > 0,
        w >= 0,
    ensures
        dtw_cell(a, b, w, i, j) >= dist(a[0], b[0]),
{
    lemma_dist_bound(a[0], b[0]);
    if i < 0 {
        return;
    }
    assert forall|jj: int| #[trigger] dtw_cell(a, b, w, 0, jj) >= dist(a[0], b[0]) by {
        lemma_first_row_at_least_origin(a, b, w, jj);
    }
    lemma_row_bound(a, b, w, 0, dist(a[0], b[0]) as int, i, j);
}

/// The endpoint bound never exceeds the warping distance, whatever the band
/// (a band as wide as the longer path restricts nothing).
pub proof fn lemma_endpoint_bound_is_lower_bound(a: Seq<Point>, b: Seq<Point>, w: nat)
    requires
        a.len() > 0,
        b.len() > 0,
    ensures
        endpoint_bound(a, b) <= dtw_distance(a, b, w as int),
{
    let i = a.len() - 1;
    let j = b.len() - 1;
    lemma_dist_bound(a[0], b[0]);
    lemma_dist_bound(a.last(), b.last());
    if i == 0 && j == 0 {
    } else if in_band(i, j, w as int) {
        lemma_cell_at_least_origin(a, b, w as int, i - 1, j);
        lemma_cell_at_least_origin(a, b, w as int, i, j - 1);
        lemma_cell_at_least_origin(a, b, w as int, i - 1, j - 1);
        lemma_cell_range(a, b, w as int, i - 1, j);
        lemma_cell_range(a, b, w as int, i, j - 1);
        lemma_cell_range(a, b, w as int, i - 1, j - 1);
    }
}

pub open spec fn min2(x: int, y: int) -> int {
    if x <= y {
        x
    } else {
        y
    }
}

/// `p` holds running sums of per-row lower bounds: `p[k + 1] - p[k]` never
/// exceeds the cost of matching point `k` of `a` to any point of `b`.
pub open spec fn is_row_bound_prefix(a: Seq<Point>, b: Seq<Point>, p: Seq<u128>) -> bool {
    &&& p.len() == a.len() + 1
    &&& p[0] == 0
    &&& forall|k: int| 0 <= k < a.len() ==> #[trigger] p[k] <= p[k + 1]
    &&& forall|k: int, j: int| 0 <= k < a.len() && 0 <= j < b.len() ==> p[k + 1] - p[k] <= #[trigger] dist(a[k], b[j])
}

/// Every row after row `i` adds at least its own lower bound to a warping
/// path: a cell of row `i2` costs at least the least cost of row `i` plus the
/// bounds of rows `i + 1 ..= i2`.
pub proof fn lemma_row_bound_cumulative(
    a: Seq<Point>,
    b: Seq<Point>,
    w: int,
    i: int,
    v: int,
    p: Seq<u128>,
    i2: int,
    j2: int,
)
    requires
        0 <= i <= i2 < a.len(),
        v <= inf(),
        forall|j: int| #[trigger] dtw_cell(a, b, w, i, j) >= v,
        is_row_bound_prefix(a, b, p),
    ensures
        dtw_cell(a, b, w, i2, j2) >= min2(inf(), v + p[i2 + 1] - p[i + 1]),
    decreases i2 - i, j2 + 1,
{
    if i2 == i {
        assert(dtw_cell(a, b, w, i, j2) >= v);
    } else if j2 < 0 || j2 >= b.len() || !in_band(i2, j2, w) {
    } else {
        lemma_row_bound_cumulative(a, b, w, i, v, p, i2 - 1, j2);
        lemma_row_bound_cumulative(a, b, w, i, v, p, i2 - 1, j2 - 1);
        lemma_row_bound_cumulative(a, b, w, i, v, p, i2, j2 - 1);
        assert(p[i2] <= p[i2 + 1]);
        assert(p[i2 + 1] - p[i2] <= dist(a[i2], b[j2]));
    }
}

/// The endpoint lower bound of two non-empty paths.
pub fn endpoint_lower_bound(a: &Vec<Point>, b: &Vec<Point>) -> (r: u64)
    requires
        a.len() > 0,
        b.len() > 0,
    ensures
        r == endpoint_bound(a@, b@),
{
    let first = point_distance(&a[0], &b[0]);
    if a.len() == 1 && b.len() == 1 {
        first
    } else {
        first + point_distance(&a[a.len() - 1], &b[b.len() - 1])
    }
}

/// The pre-filter: true when the endpoint bound already exceeds `bsf`, so
/// that no alignment of the two paths can beat it.
pub fn estimate_and_maybe_skip(a: &Vec<Point>, b: &Vec<Point>, bsf: u64) -> (skip: bool)
    requires
        a.len() > 0,
        b.len() > 0,
    ensures
        skip == (endpoint_bound(a@, b@) > bsf),
        skip ==> forall|w: nat| dtw_distance(a@, b@, w as int) > bsf,
{
    let bound = endpoint_lower_bound(a, b);
    proof {
        assert forall|w: nat| endpoint_bound(a@, b@) <= dtw_distance(a@, b@, w as int) by {
            lemma_endpoint_bound_is_lower_bound(a@, b@, w);
        }
    }
    bound > bsf
}

/// How far `v` lies outside `[lo, hi]`.
fn gap(v: i32, lo: i32, hi: i32) -> (r: u64)
    requires
        lo <= hi,
    ensures
        r < 0x1_0000_0000,
        forall|c: i32| lo <= c <= hi ==> r <= crate::geometry::abs_diff(v, c),
{
    if v < lo {
        (lo as i64 - v as i64) as u64
    } else if v > hi {
        (v as i64 - hi as i64) as u64
    } else {
        0
    }
}

proof fn lemma_gap_below_distance(gx: nat, gy: nat, p: Point, q: Point)
    requires
        gx <= crate::geometry::abs_diff(p.x, q.x),
        gy <= crate::geometry::abs_diff(p.y, q.y),
    ensures
        isqrt(gx * gx + gy * gy) <= dist(p, q),
{
    let dx = crate::geometry::abs_diff(p.x, q.x);
    let dy = crate::geometry::abs_diff(p.y, q.y);
    assert(gx * gx + gy * gy <= dx * dx + dy * dy) by (nonlinear_arith)
        requires
            gx <= dx,
            gy <= dy,
    ;
    lemma_isqrt_monotonic(gx * gx + gy * gy, dx * dx + dy * dy);
}

/// Running sums of a lower bound for each point of `a`: its distance to the
/// bounding box of `b`.
fn row_bound_prefix(a: &Vec<Point>, b: &Vec<Point>) -> (p: Vec<u128>)
    requires
        b.len() > 0,
    ensures
        is_row_bound_prefix(a@, b@, p@),
        forall|k: int| 0 <= k < p@.len() ==> p[k] <= k * 0x2_0000_0000,
{
    let mut x_lo = b[0].x;
    let mut x_hi = b[0].x;
    let mut y_lo = b[0].y;
    let mut y_hi = b[0].y;
    let mut j: usize = 1;
    while j < b.len()
        invariant
            1 <= j <= b.len(),
            x_lo <= x_hi,
            y_lo <= y_hi,
            forall|jj: int| 0 <= jj < j ==> x_lo <= #[trigger] b@[jj].x <= x_hi && y_lo <= b@[jj].y <= y_hi,
        decreases b.len() - j,
    {
        if b[j].x < x_lo {
            x_lo = b[j].x;
        }
        if b[j].x > x_hi {
            x_hi = b[j].x;
        }
        if b[j].y < y_lo {
            y_lo = b[j].y;
        }
        if b[j].y > y_hi {
            y_hi = b[j].y;
        }
        j += 1;
    }
    let mut p: Vec<u128> = Vec::new();
    p.push(0);
    let mut k: usize = 0;
    while k < a.len()
        invariant
            k <= a.len(),
            x_lo <= x_hi,
            y_lo <= y_hi,
            p.len() == k + 1,
            p[0] == 0,
            forall|kk: int| 0 <= kk < k ==> #[trigger] p[kk] <= p[kk + 1],
            forall|kk: int, jj: int| 0 <= kk < k && 0 <= jj < b.len() ==> p[kk + 1] - p[kk] <= #[trigger] dist(a@[kk], b@[jj]),
            forall|kk: int| 0 <= kk <= k ==> #[trigger] p[kk] <= kk * 0x2_0000_0000,
            forall|jj: int| 0 <= jj < b.len() ==> x_lo <= #[trigger] b@[jj].x <= x_hi && y_lo <= b@[jj].y <= y_hi,
        decreases a.len() - k,
    {
        let gx = gap(a[k].x, x_lo, x_hi) as u128;
        let gy = gap(a[k].y, y_lo, y_hi) as u128;
        assert(gx * gx + gy * gy < 0x4_0000_0000_0000_0000) by (nonlinear_arith)
            requires
                gx < 0x1_0000_0000,
                gy < 0x1_0000_0000,
        ;
        let lb = integer_sqrt(gx * gx + gy * gy);
        proof {
            assert forall|jj: int| 0 <= jj < b.len() implies lb <= #[trigger] dist(a@[k as int], b@[jj]) by {
                assert(x_lo <= b@[jj].x <= x_hi);
                lemma_gap_below_distance(gx as nat, gy as nat, a@[k as int], b@[jj]);
            }
        }
        let last = p[k];
        p.push(last + lb as u128);
        k += 1;
    }
    p
}

/// The first column of row `i` inside the band.
pub open spec fn band_lo(i: int, w: int) -> int {
    if i > w {
        i - w
    } else {
        0
    }
}

/// The last column of row `i` inside the band, for `m` columns.
pub open spec fn band_hi(i: int, w: int, m: int) -> int {
    if i + w < m - 1 {
        i + w
    } else {
        m - 1
    }
}

fn band_lo_exec(i: usize, w: usize) -> (r: usize)
    ensures
        r == band_lo(i as int, w as int),
{
    if i > w {
        i - w
    } else {
        0
    }
}

fn band_hi_exec(i: usize, w: usize, m: usize) -> (r: usize)
    requires
        m > 0,
    ensures
        r == band_hi(i as int, w as int, m as int),
{
    if w >= m - 1 || i >= m - 1 - w {
        m - 1
    } else {
        i + w
    }
}

fn band_contains(i: usize, j: usize, w: usize) -> (r: bool)
    ensures
        r == in_band(i as int, j as int, w as int),
{
    if i >= j {
        i - j <= w
    } else {
        j - i <= w
    }
}

fn add_saturating(x: u64, d: u64) -> (r: u64)
    ensures
        r == sat_add(x as int, d as int),
{
    if x >= INFINITE_DISTANCE - d {
        INFINITE_DISTANCE
    } else {
        x + d
    }
}

/// The warping distance between `a` and `b` under a band of half-width `w`,
/// abandoned as soon as a whole row of the cost matrix reaches `bsf`. The
/// result is exact when the distance is below `bsf`; otherwise it is only
/// known to be no better than `bsf`.
pub fn bounded_dtw(a: &Vec<Point>, b: &Vec<Point>, w: usize, bsf: u64) -> (r: u64)
    ensures
        dtw_distance(a@, b@, w as int) < bsf ==> r == dtw_distance(a@, b@, w as int),
        dtw_distance(a@, b@, w as int) >= bsf ==> r >= bsf,
{
    banded_dtw(a, b, w, bsf, None)
}

/// Like `bounded_dtw`, but a row is also abandoned when its least cost plus
/// a lower bound for every row still to come reaches `bsf`. The bound of a
/// row is the distance from its point to the bounding box of `b`.
pub fn cumulative_bounded_dtw(a: &Vec<Point>, b: &Vec<Point>, w: usize, bsf: u64) -> (r: u64)
    ensures
        dtw_distance(a@, b@, w as int) < bsf ==> r == dtw_distance(a@, b@, w as int),
        dtw_distance(a@, b@, w as int) >= bsf ==> r >= bsf,
{
    if b.len() == 0 {
        return INFINITE_DISTANCE;
    }
    let prefix = row_bound_prefix(a, b);
    banded_dtw(a, b, w, bsf, Some(&prefix))
}

fn banded_dtw(a: &Vec<Point>, b: &Vec<Point>, w: usize, bsf: u64, prefix: Option<&Vec<u128>>) -> (r: u64)
    requires
        prefix matches Some(p) ==> is_row_bound_prefix(a@, b@, p@),
        prefix matches Some(p) ==> forall|k: int| 0 <= k < p@.len() ==> p[k] <= k * 0x2_0000_0000,
    ensures
        dtw_distance(a@, b@, w as int) < bsf ==> r == dtw_distance(a@, b@, w as int),
        dtw_distance(a@, b@, w as int) >= bsf ==> r >= bsf,
{
    let n = a.len();
    let m = b.len();
    if n == 0 || m == 0 {
        return INFINITE_DISTANCE;
    }
    if !band_contains(n - 1, m - 1, w) {
        return INFINITE_DISTANCE;
    }
    let ghost wi = w as int;
    let mut prev: Vec<u64> = Vec::new();
    let mut plo: usize = 0;
    let mut phi: usize = 0;
    let mut i: usize = 0;
    while i < n
        invariant
            i <= n,
            n == a.len(),
            m == b.len(),
            m > 0,
            n > 0,
            wi == w as int,
            in_band(n - 1, m - 1, wi),
            i > 0 ==> plo == band_lo((i - 1) as int, wi) && phi == band_hi((i - 1) as int, wi, m as int),
            i > 0 ==> plo <= phi && prev.len() == phi - plo + 1,
            i > 0 ==> forall|j: int| plo <= j <= phi ==> #[trigger] prev[j - plo] == dtw_cell(a@, b@, wi, i - 1, j),
            prefix matches Some(p) ==> is_row_bound_prefix(a@, b@, p@),
            prefix matches Some(p) ==> forall|k: int| 0 <= k < p@.len() ==> p[k] <= k * 0x2_0000_0000,
        decreases n - i,
    {
        let lo = band_lo_exec(i, w);
        let hi = band_hi_exec(i, w, m);
        let mut cur: Vec<u64> = Vec::new();
        let mut row_min: u64 = INFINITE_DISTANCE;
        let mut j: usize = lo;
        while j <= hi
            invariant
                i < n,
                lo <= j <= hi + 1,
                hi < m,
                lo == band_lo(i as int, wi),
                hi == band_hi(i as int, wi, m as int),
                n == a.len(),
                m == b.len(),
                wi == w as int,
                i > 0 ==> plo == band_lo((i - 1) as int, wi) && phi == band_hi((i - 1) as int, wi, m as int),
                i > 0 ==> plo <= phi && prev.len() == phi - plo + 1,
                i > 0 ==> forall|jj: int| plo <= jj <= phi ==> #[trigger] prev[jj - plo] == dtw_cell(a@, b@, wi, i - 1, jj),
                cur.len() == j - lo,
                forall|jj: int| lo <= jj < j ==> #[trigger] cur[jj - lo] == dtw_cell(a@, b@, wi, i as int, jj),
                forall|jj: int| lo <= jj < j ==> row_min <= #[trigger] cur[jj - lo],
            decreases hi + 1 - j,
        {
            let d = point_distance(&a[i], &b[j]);
            let v: u64 = if i == 0 && j == 0 {
                d
            } else {
                let up: u64 = if i > 0 && plo <= j && j <= phi {
                    prev[j - plo]
                } else {
                    INFINITE_DISTANCE
                };
                let left: u64 = if j > lo {
                    cur[j - 1 - lo]
                } else {
                    INFINITE_DISTANCE
                };
                let diag: u64 = if i > 0 && j > 0 && plo <= j - 1 && j - 1 <= phi {
                    prev[j - 1 - plo]
                } else {
                    INFINITE_DISTANCE
                };
                let best: u64 = if up <= left && up <= diag {
                    up
                } else if left <= diag {
                    left
                } else {
                    diag
                };
                proof {
                    assert(up == dtw_cell(a@, b@, wi, i - 1, j as int));
                    assert(left == dtw_cell(a@, b@, wi, i as int, j - 1));
                    assert(diag == dtw_cell(a@, b@, wi, i - 1, j - 1));
                }
                add_saturating(best, d)
            };
            assert(v == dtw_cell(a@, b@, wi, i as int, j as int));
            if v < row_min {
                row_min = v;
            }
            cur.push(v);
            assert(cur[j - lo] == v);
            j += 1;
        }
        proof {
            assert forall|jj: int| #[trigger] dtw_cell(a@, b@, wi, i as int, jj) >= row_min by {
                if lo <= jj <= hi {
                    assert(cur[jj - lo] == dtw_cell(a@, b@, wi, i as int, jj));
                } else {
                    assert(dtw_cell(a@, b@, wi, i as int, jj) == inf());
                }
            }
        }
        if row_min >= bsf {
            proof {
                lemma_row_bound(a@, b@, wi, i as int, row_min as int, n - 1, m - 1);
            }
            return row_min;
        }
        match prefix {
            Some(p) => {
                assert(p[n as int] <= n * 0x2_0000_0000);
                assert(p[i + 1] <= (i + 1) * 0x2_0000_0000);
                if row_min as u128 + p[n] >= bsf as u128 + p[i + 1] {
                    proof {
                        lemma_row_bound_cumulative(a@, b@, wi, i as int, row_min as int, p@, n - 1, m - 1);
                    }
                    return bsf;
                }
            },
            None => {},
        }
        prev = cur;
        plo = lo;
        phi = hi;
        i += 1;
    }
    assert(phi == m - 1);
    assert(prev[(m - 1) - plo] == dtw_cell(a@, b@, wi, n - 1, m - 1));
    prev[m - 1 - plo]
}

/// The warping distance between `a` and `b` under a band of half-width `w`,
/// computed in full.
pub fn dtw(a: &Vec<Point>, b: &Vec<Point>, w: usize) -> (r: u64)
    ensures
        r == dtw_distance(a@, b@, w as int),
{
    proof {
        lemma_cell_range(a@, b@, w as int, a@.len() - 1, b@.len() - 1);
    }
    bounded_dtw(a, b, w, INFINITE_DISTANCE)
}

} // verus!
