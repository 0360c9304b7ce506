use vstd::prelude::*;

verus! {

/// The distance that stands for "infinitely far": no alignment exists.
pub const INFINITE_DISTANCE: u64 = 0xffff_ffff_ffff_ffff;

/// A point of the keyboard frame, in fixed-point units.
#[derive(Clone, Copy, Debug, PartialEq, Eq, Structural)]
pub struct Point {
    pub x: i32,
    pub y: i32,
}

/// The floor of the square root of `n`.
pub open spec fn isqrt(n: nat) -> nat
    decreases n,
{
    if n == 0 {
        0
    } else {
        let r = isqrt((n - 1) as nat);
        if (r + 1) * (r + 1) <= n {
            r + 1
        } else {
            r
        }
    }
}

/// `r` is the floor of the square root of `n`.
pub open spec fn is_floor_sqrt(n: nat, r: nat) -> bool {
    r * r <= n && n < (r + 1) * (r + 1)
}

pub open spec fn abs_diff(a: i32, b: i32) -> nat {
    if a >= b {
        (a - b) as nat
    } else {
        (b - a) as nat
    }
}

/// The squared Euclidean distance between two points.
pub open spec fn sq_dist(p: Point, q: Point) -> nat {
    abs_diff(p.x, q.x) * abs_diff(p.x, q.x) + abs_diff(p.y, q.y) * abs_diff(p.y, q.y)
}

/// The Euclidean distance between two points, rounded down.
///
/// It is zero exactly for equal points and symmetric. Rounding down leaves
/// the triangle inequality only one unit to spare (`(0,0)`, `(2,2)`, `(4,4)`
/// give 5 against 2 + 2); no proof here relies on it.
pub open spec fn dist(p: Point, q: Point) -> nat {
    isqrt(sq_dist(p, q))
}

proof fn lemma_isqrt_is_floor(n: nat)
    ensures
        is_floor_sqrt(n, isqrt(n)),
    decreases n,
{
    if n > 0 {
        let m = (n - 1) as nat;
        lemma_isqrt_is_floor(m);
        let r = isqrt(m);
        if (r + 1) * (r + 1) <= n {
            assert(n < (r + 2) * (r + 2)) by (nonlinear_arith)
                requires
                    n <= (r + 1) * (r + 1),
            ;
            assert(is_floor_sqrt(n, r + 1));
        } else {
            assert(is_floor_sqrt(n, r));
        }
    } else {
        assert(0 * 0 <= 0nat && 0nat < 1 * 1);
    }
}

proof fn lemma_floor_sqrt_unique(n: nat, r: nat, s: nat)
    requires
        is_floor_sqrt(n, r),
        is_floor_sqrt(n, s),
    ensures
        r == s,
{
    if r < s {
        assert((r + 1) * (r + 1) <= s * s) by (nonlinear_arith)
            requires
                r + 1 <= s,
        ;
    } else if s < r {
        assert((s + 1) * (s + 1) <= r * r) by (nonlinear_arith)
            requires
                s + 1 <= r,
        ;
    }
}

/// The floor of `isqrt` is unique: any `r` with `r*r <= n < (r+1)*(r+1)` is it.
pub proof fn lemma_isqrt_spec(n: nat, r: nat)
    requires
        is_floor_sqrt(n, r),
    ensures
        isqrt(n) == r,
{
    lemma_isqrt_is_floor(n);
    lemma_floor_sqrt_unique(n, r, isqrt(n));
}

/// The square root is monotonic.
pub proof fn lemma_isqrt_monotonic(m: nat, n: nat)
    requires
        m <= n,
    ensures
        isqrt(m) <= isqrt(n),
{
    lemma_isqrt_is_floor(m);
    lemma_isqrt_is_floor(n);
    let a = isqrt(m);
    let b = isqrt(n);
    if a > b {
        assert((b + 1) * (b + 1) <= a * a) by (nonlinear_arith)
            requires
                b + 1 <= a,
        ;
    }
}

/// The square root of anything below 2^66 is below 2^33.
pub proof fn lemma_isqrt_bound(n: nat)
    requires
        n < 0x4_0000_0000_0000_0000,
    ensures
        isqrt(n) < 0x2_0000_0000,
{
    lemma_isqrt_is_floor(n);
    let r = isqrt(n);
    if r >= 0x2_0000_0000 {
        assert(r * r >= 0x2_0000_0000 * 0x2_0000_0000) by (nonlinear_arith)
            requires
                r >= 0x2_0000_0000,
        ;
    }
}

/// Computes the floor of the square root of `n` by bisection.
pub fn integer_sqrt(n: u128) -> (r: u64)
    requires
        n < 0x4_0000_0000_0000_0000,
    ensures
        r as nat == isqrt(n as nat),
        r < 0x2_0000_0000,
{
    let mut lo: u128 = 0;
    let mut hi: u128 = 0x2_0000_0000;
    assert(n < hi * hi);
    while hi - lo > 1
        invariant
            lo < hi <= 0x2_0000_0000,
            lo * lo <= n,
            n < hi * hi,
        decreases hi - lo,
    {
        let mid: u128 = lo + (hi - lo) / 2;
        assert(mid * mid <= 0x2_0000_0000 * 0x2_0000_0000) by (nonlinear_arith)
            requires
                mid < 0x2_0000_0000,
        ;
        if mid * mid <= n {
            lo = mid;
        } else {
            hi = mid;
        }
    }
    proof {
        assert(hi == lo + 1);
        lemma_isqrt_spec(n as nat, lo as nat);
    }
    lo as u64
}

/// Every distance between two points is below 2^33.
pub proof fn lemma_dist_bound(p: Point, q: Point)
    ensures
        dist(p, q) < 0x2_0000_0000,
{
    let dx = abs_diff(p.x, q.x);
    let dy = abs_diff(p.y, q.y);
    assert(dx * dx + dy * dy < 0x4_0000_0000_0000_0000) by (nonlinear_arith)
        requires
            dx < 0x1_0000_0000,
            dy < 0x1_0000_0000,
    ;
    lemma_isqrt_bound(sq_dist(p, q));
}

fn abs_diff_exec(a: i32, b: i32) -> (r: u64)
    ensures
        r as nat == abs_diff(a, b),
        r < 0x1_0000_0000,
{
    if a >= b {
        (a as i64 - b as i64) as u64
    } else {
        (b as i64 - a as i64) as u64
    }
}

/// The Euclidean distance between `p` and `q`, rounded down.
pub fn point_distance(p: &Point, q: &Point) -> (r: u64)
    ensures
        r as nat == dist(*p, *q),
        r < 0x2_0000_0000,
{
    let dx = abs_diff_exec(p.x, q.x) as u128;
    let dy = abs_diff_exec(p.y, q.y) as u128;
    assert(dx * dx < 0x1_0000_0000 * 0x1_0000_0000) by (nonlinear_arith)
        requires
            dx < 0x1_0000_0000,
    ;
    assert(dy * dy < 0x1_0000_0000 * 0x1_0000_0000) by (nonlinear_arith)
        requires
            dy < 0x1_0000_0000,
    ;
    integer_sqrt(dx * dx + dy * dy)
}

/// The length of the polyline through `p`.
pub open spec fn path_length(p: Seq<Point>) -> nat
    decreases p.len(),
{
    if p.len() < 2 {
        0
    } else {
        path_length(p.drop_last()) + dist(p[p.len() - 2], p[p.len() - 1])
    }
}

/// The length of the polyline through `s`, taken from its first leg on.
pub proof fn lemma_path_length_front(s: Seq<Point>)
    requires
        s.len() >= 2,
    ensures
        path_length(s) == dist(s[0], s[1]) + path_length(s.drop_first()),
    decreases s.len(),
{
    let n = s.len() as int;
    let f = s.drop_first();
    if s.len() > 2 {
        let d = s.drop_last();
        lemma_path_length_front(d);
        assert(f.drop_last() =~= d.drop_first());
        assert(path_length(s) == path_length(d) + dist(s[n - 2], s[n - 1]));
        assert(path_length(f) == path_length(f.drop_last()) + dist(f[n - 3], f[n - 2]));
        assert(f[n - 3] == s[n - 2] && f[n - 2] == s[n - 1]);
        assert(d[0] == s[0] && d[1] == s[1]);
    } else {
        assert(path_length(f) == 0);
        assert(path_length(s.drop_last()) == 0);
        assert(path_length(s) == path_length(s.drop_last()) + dist(s[0], s[1]));
    }
}

/// The length of the polyline through `path`.
pub fn polyline_length(path: &Vec<Point>) -> (r: u128)
    ensures
        r == path_length(path@),
        path@.len() > 0 ==> r <= (path@.len() - 1) * 0x2_0000_0000,
{
    let mut total: u128 = 0;
    let mut i: usize = 1;
    if path.len() < 2 {
        return 0;
    }
    assert(path@.take(1) =~= path@.take(1));
    while i < path.len()
        invariant
            1 <= i <= path.len(),
            total == path_length(path@.take(i as int)),
            total <= (i - 1) * 0x2_0000_0000,
        decreases path.len() - i,
    {
        let d = point_distance(&path[i - 1], &path[i]);
        assert(path@.take(i + 1).drop_last() =~= path@.take(i as int));
        total = total + d as u128;
        i += 1;
    }
    assert(path@.take(path.len() as int) =~= path@);
    total
}

} // verus!
