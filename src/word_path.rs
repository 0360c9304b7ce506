use vstd::prelude::*;
use vstd::arithmetic::div_mod::{lemma_div_is_ordered, lemma_div_by_multiple};
use vstd::arithmetic::mul::lemma_mul_inequality;
use crate::geometry::{Point, dist, point_distance, path_length, polyline_length, lemma_path_length_front, lemma_dist_bound};
use crate::layout::{KeyLayout, find_center};

verus! {

/// The waypoints of a word: the center of each letter's key in turn, with
/// letters that have no key left out and a repeated center kept once.
///
/// A letter without a key is skipped wherever it stands, the first letter
/// included: a word has no path only when none of its letters has a key.
pub open spec fn waypoints(keys: Seq<(char, Point)>, word: Seq<char>) -> Seq<Point>
    decreases word.len(),
{
    if word.len() == 0 {
        Seq::empty()
    } else {
        let prev = waypoints(keys, word.drop_last());
        match find_center(keys, word.last()) {
            None => prev,
            Some(p) => if prev.len() > 0 && prev.last() == p {
                prev
            } else {
                prev.push(p)
            },
        }
    }
}

/// The coordinate `i/n` of the way from `a` to `b`, rounded towards `a`.
pub open spec fn lerp_coord(a: int, b: int, i: nat, n: nat) -> int {
    if b >= a {
        a + (b - a) * (i as int) / (n as int)
    } else {
        a - (a - b) * (i as int) / (n as int)
    }
}

pub open spec fn lerp_point(p: Point, q: Point, i: nat, n: nat) -> Point {
    Point { x: lerp_coord(p.x as int, q.x as int, i, n) as i32, y: lerp_coord(p.y as int, q.y as int, i, n) as i32 }
}

/// The point at arc length `t` along the polyline through `wp`, each leg
/// measured by `dist`; inside a leg it is interpolated, rounded towards the
/// leg's start.
pub open spec fn point_at(wp: Seq<Point>, t: nat) -> Point
    decreases wp.len(),
{
    if wp.len() < 2 {
        wp.last()
    } else {
        let l = dist(wp[0], wp[1]);
        if t < l {
            lerp_point(wp[0], wp[1], t, l)
        } else {
            point_at(wp.drop_first(), (t - l) as nat)
        }
    }
}

/// The points at arc lengths `t`, `t + spacing`, `t + 2 * spacing`, ...
/// below `total`.
pub open spec fn walk(wp: Seq<Point>, spacing: nat, t: int, total: int) -> Seq<Point>
    decreases (if t < total {
        total - t
    } else {
        0
    }),
{
    if spacing == 0 || t >= total || t < 0 {
        Seq::empty()
    } else {
        seq![point_at(wp, t as nat)] + walk(wp, spacing, t + spacing, total)
    }
}

/// The polyline through `wp`, resampled by walking it: its first waypoint,
/// then a point every `spacing` units of length, then its last waypoint.
/// A spacing of zero leaves the waypoints as they are.
pub open spec fn resample(wp: Seq<Point>, spacing: nat) -> Seq<Point> {
    if wp.len() == 0 {
        Seq::empty()
    } else if spacing == 0 || wp.len() == 1 {
        wp
    } else {
        seq![wp[0]] + walk(wp, spacing, spacing as int, path_length(wp) as int) + seq![wp.last()]
    }
}

/// Resampling keeps the first and the last waypoint, and gives a single
/// point exactly when there is a single waypoint.
pub proof fn lemma_resample_endpoints(wp: Seq<Point>, spacing: nat)
    requires
        wp.len() > 0,
    ensures
        wp.len() >= 2 ==> resample(wp, spacing).len() >= 2,
        resample(wp, spacing)[0] == wp[0],
        resample(wp, spacing).last() == wp.last(),
        (resample(wp, spacing).len() == 1) == (wp.len() == 1),
{
}

/// `span * i / n` never exceeds `span` for `i <= n`.
proof fn lemma_scaled_le(span: nat, i: nat, n: nat)
    requires
        i <= n,
        n > 0,
    ensures
        span * i / n <= span,
{
    lemma_mul_inequality(i as int, n as int, span as int);
    assert(span * i == i * span && span * n == n * span) by (nonlinear_arith);
    lemma_div_is_ordered((span * i) as int, (span * n) as int, n as int);
    lemma_div_by_multiple(span as int, n as int);
}

fn lerp_coord_exec(a: i32, b: i32, i: u64, n: u64) -> (r: i32)
    requires
        i <= n,
        n > 0,
    ensures
        r as int == lerp_coord(a as int, b as int, i as nat, n as nat),
{
    if b >= a {
        let span: u128 = (b as i64 - a as i64) as u128;
        proof {
            lemma_scaled_le(span as nat, i as nat, n as nat);
            assert(span * i <= 0x1_0000_0000 * 0x1_0000_0000_0000_0000) by (nonlinear_arith)
                requires
                    span < 0x1_0000_0000,
                    i < 0x1_0000_0000_0000_0000,
            ;
        }
        let off: u128 = span * (i as u128) / (n as u128);
        (a as i64 + off as i64) as i32
    } else {
        let span: u128 = (a as i64 - b as i64) as u128;
        proof {
            lemma_scaled_le(span as nat, i as nat, n as nat);
            assert(span * i <= 0x1_0000_0000 * 0x1_0000_0000_0000_0000) by (nonlinear_arith)
                requires
                    span < 0x1_0000_0000,
                    i < 0x1_0000_0000_0000_0000,
            ;
        }
        let off: u128 = span * (i as u128) / (n as u128);
        (a as i64 - off as i64) as i32
    }
}

/// The path that a word is typed along, before resampling.
pub struct WordPath {
    waypoints: Vec<Point>,
}

impl WordPath {
    /// The waypoints.
    pub closed spec fn view(&self) -> Seq<Point> {
        self.waypoints@
    }

    /// The waypoints of `word` on `layout`.
    pub fn new(layout: &KeyLayout, word: &str) -> (p: WordPath)
        ensures
            p.view() == waypoints(layout.view(), word@),
    {
        let len = word.unicode_len();
        let mut wp: Vec<Point> = Vec::new();
        let mut i: usize = 0;
        assert(word@.take(0) =~= Seq::<char>::empty());
        while i < len
            invariant
                i <= len,
                len == word@.len(),
                wp@ == waypoints(layout.view(), word@.take(i as int)),
            decreases len - i,
        {
            let c = word.get_char(i);
            assert(word@.take(i + 1).drop_last() =~= word@.take(i as int));
            assert(word@.take(i + 1).last() == c);
            match layout.center(c) {
                None => {},
                Some(p) => {
                    let n = wp.len();
                    if n == 0 || wp[n - 1] != p {
                        wp.push(p);
                    }
                },
            }
            i += 1;
        }
        assert(word@.take(len as int) =~= word@);
        WordPath { waypoints: wp }
    }

    /// The first and the last waypoint, or `None` where the word has no
    /// path (no letter of it has a key).
    pub fn first_last_points(&self) -> (r: Option<(Point, Point)>)
        ensures
            r is None <==> self.view().len() == 0,
            r matches Some((f, l)) ==> f == self.view()[0] && l == self.view().last(),
    {
        let n = self.waypoints.len();
        if n == 0 {
            None
        } else {
            Some((self.waypoints[0], self.waypoints[n - 1]))
        }
    }

    /// The waypoints themselves.
    pub fn waypoints(&self) -> (r: &Vec<Point>)
        ensures
            r@ == self.view(),
    {
        &self.waypoints
    }

    /// The path resampled to points about `spacing` apart, or `None` where
    /// the word has no path.
    pub fn get_path(&self, spacing: u64) -> (r: Option<Vec<Point>>)
        ensures
            r is None <==> self.view().len() == 0,
            r matches Some(path) ==> path@ == resample(self.view(), spacing as nat),
    {
        let n = self.waypoints.len();
        if n == 0 {
            return None;
        }
        let ghost wp = self.waypoints@;
        let mut out: Vec<Point> = Vec::new();
        if spacing == 0 || n == 1 {
            let mut i: usize = 0;
            while i < n
                invariant
                    i <= n,
                    n == wp.len(),
                    wp == self.waypoints@,
                    out@ == wp.take(i as int),
                decreases n - i,
            {
                out.push(self.waypoints[i]);
                assert(wp.take(i + 1) =~= wp.take(i as int).push(wp[i as int]));
                i += 1;
            }
            assert(wp.take(n as int) =~= wp);
            return Some(out);
        }
        let ghost s = spacing as nat;
        let total = polyline_length(&self.waypoints);
        let ghost tot = total as int;
        out.push(self.waypoints[0]);
        let mut k: usize = 0;
        let mut base: u128 = 0;
        let mut leg: u64 = point_distance(&self.waypoints[0], &self.waypoints[1]);
        let mut t: u128 = spacing as u128;
        assert(wp.skip(0) =~= wp);
        assert(out@ + walk(wp, s, t as int, tot) =~= seq![wp[0]] + walk(wp, s, s as int, tot));
        while t < total
            invariant
                n == wp.len(),
                n >= 2,
                wp == self.waypoints@,
                s == spacing as nat,
                s > 0,
                tot == total as int,
                total == path_length(wp),
                total <= (n - 1) * 0x2_0000_0000,
                k + 1 < n,
                base <= t <= total + spacing,
                leg == dist(wp[k as int], wp[k + 1]),
                base + path_length(wp.skip(k as int)) == total,
                forall|tt: nat| tt >= base ==> #[trigger] point_at(wp, tt) == point_at(wp.skip(k as int), (tt - base) as nat),
                out@ + walk(wp, s, t as int, tot) == seq![wp[0]] + walk(wp, s, s as int, tot),
            decreases total + spacing - t,
        {
            while t >= base + leg as u128
                invariant
                    n == wp.len(),
                    wp == self.waypoints@,
                    t < total,
                    total <= (n - 1) * 0x2_0000_0000,
                    k + 1 < n,
                    base <= t,
                    leg == dist(wp[k as int], wp[k + 1]),
                    base + path_length(wp.skip(k as int)) == total,
                    forall|tt: nat| tt >= base ==> #[trigger] point_at(wp, tt) == point_at(wp.skip(k as int), (tt - base) as nat),
                decreases n - k,
            {
                let ghost cur = wp.skip(k as int);
                proof {
                    lemma_path_length_front(cur);
                    assert(cur.drop_first() =~= wp.skip(k + 1));
                    assert(cur[0] == wp[k as int] && cur[1] == wp[k + 1]);
                    assert(path_length(wp.skip(k + 1)) > 0);
                    assert(wp.skip(k + 1).len() >= 2);
                    assert forall|tt: nat| tt >= base + leg implies #[trigger] point_at(wp, tt) == point_at(wp.skip(k + 1), (tt - base - leg) as nat) by {
                        assert(point_at(wp, tt) == point_at(cur, (tt - base) as nat));
                    }
                }
                base = base + leg as u128;
                k += 1;
                leg = point_distance(&self.waypoints[k], &self.waypoints[k + 1]);
            }
            let ghost cur = wp.skip(k as int);
            let off = (t - base) as u64;
            proof {
                lemma_dist_bound(wp[k as int], wp[k + 1]);
                assert(cur[0] == wp[k as int] && cur[1] == wp[k + 1]);
                assert(point_at(wp, t as nat) == point_at(cur, off as nat));
                assert(point_at(cur, off as nat) == lerp_point(wp[k as int], wp[k + 1], off as nat, leg as nat));
            }
            let x = lerp_coord_exec(self.waypoints[k].x, self.waypoints[k + 1].x, off, leg);
            let y = lerp_coord_exec(self.waypoints[k].y, self.waypoints[k + 1].y, off, leg);
            let pt = Point { x, y };
            assert(pt == point_at(wp, t as nat));
            assert(walk(wp, s, t as int, tot) == seq![pt] + walk(wp, s, t + s, tot));
            assert(out@.push(pt) + walk(wp, s, t + s, tot) =~= out@ + walk(wp, s, t as int, tot));
            out.push(pt);
            t = t + spacing as u128;
        }
        assert(walk(wp, s, t as int, tot) =~= Seq::<Point>::empty());
        assert(out@ =~= seq![wp[0]] + walk(wp, s, s as int, tot));
        out.push(self.waypoints[n - 1]);
        Some(out)
    }
}

} // verus!
