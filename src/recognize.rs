use vstd::prelude::*;
use crate::geometry::{Point, INFINITE_DISTANCE, path_length, polyline_length};
use crate::dtw::{dtw_distance, dtw, bounded_dtw, cumulative_bounded_dtw, estimate_and_maybe_skip, endpoint_bound, lemma_endpoint_bound_is_lower_bound};
use crate::top_k::{Candidate, TopK, candidates_view, insert_candidate, insert_position, bound_of, sorted_by_distance, lemma_insert_candidate};
use crate::layout::KeyLayout;
use crate::word_path::{WordPath, waypoints, resample, lemma_resample_endpoints};
use crate::dictionary::Dictionary;

verus! {

/// Why a recognition call did not run.
#[derive(Clone, Copy, Debug, PartialEq, Eq, Structural)]
pub enum RecognizeError {
    /// The drawn path has no point.
    EmptyQuery,
    /// The number of candidates asked for is zero.
    InvalidParameter,
    /// The dictionary or the key layout is empty.
    NotInitialized,
}

/// The average spacing between consecutive points of the drawn path: its
/// length over its number of legs, rounded down; zero for fewer than two
/// points.
pub open spec fn point_spacing(q: Seq<Point>) -> nat {
    if q.len() < 2 {
        0
    } else {
        path_length(q) / (q.len() - 1) as nat
    }
}

/// The band half-width for a drawn path of `n` points: a tenth of `n`,
/// rounded to the nearest whole number (halves up).
pub open spec fn window_for(n: nat) -> nat {
    (n + 5) / 10
}

/// The distance from the drawn path to the path through waypoints `wp`,
/// resampled to the drawn path's spacing; `None` where there is no waypoint.
pub open spec fn path_distance(wp: Seq<Point>, query: Seq<Point>) -> Option<u64> {
    if wp.len() == 0 {
        None
    } else {
        Some(dtw_distance(resample(wp, point_spacing(query)), query, window_for(query.len()) as int) as u64)
    }
}

/// The distance from the drawn path to the ideal path of `word`, or `None`
/// where the word has no path.
pub open spec fn word_distance(keys: Seq<(char, Point)>, word: Seq<char>, query: Seq<Point>) -> Option<u64> {
    path_distance(waypoints(keys, word), query)
}

/// The ranking without any pruning: every word that has a path is offered to
/// a tracker of `k` slots with its full warping distance, in scan order.
pub open spec fn exhaustive_ranking(words: Seq<Seq<char>>, keys: Seq<(char, Point)>, query: Seq<Point>, k: nat) -> Seq<(Seq<char>, u64)>
    decreases words.len(),
{
    if words.len() == 0 {
        Seq::empty()
    } else {
        let prev = exhaustive_ranking(words.drop_last(), keys, query, k);
        match word_distance(keys, words.last(), query) {
            None => prev,
            Some(d) => insert_candidate(prev, k, (words.last(), d)),
        }
    }
}

/// How many of `words` have a path at a finite distance from the drawn path.
pub open spec fn reachable_count(words: Seq<Seq<char>>, keys: Seq<(char, Point)>, query: Seq<Point>) -> nat
    decreases words.len(),
{
    if words.len() == 0 {
        0
    } else {
        reachable_count(words.drop_last(), keys, query) + match word_distance(keys, words.last(), query) {
            Some(d) => if d < INFINITE_DISTANCE {
                1nat
            } else {
                0nat
            },
            None => 0nat,
        }
    }
}

/// The ranking is in ascending order of distance, holds finite distances
/// only, and holds `k` entries, or every word at a finite distance where
/// there are fewer.
pub proof fn lemma_ranking_shape(words: Seq<Seq<char>>, keys: Seq<(char, Point)>, query: Seq<Point>, k: nat)
    requires
        k > 0,
    ensures
        sorted_by_distance(exhaustive_ranking(words, keys, query, k)),
        exhaustive_ranking(words, keys, query, k).len() == if reachable_count(words, keys, query) < k {
            reachable_count(words, keys, query)
        } else {
            k
        },
        forall|i: int| 0 <= i < exhaustive_ranking(words, keys, query, k).len()
            ==> #[trigger] exhaustive_ranking(words, keys, query, k)[i].1 < INFINITE_DISTANCE,
    decreases words.len(),
{
    if words.len() > 0 {
        let prev = exhaustive_ranking(words.drop_last(), keys, query, k);
        lemma_ranking_shape(words.drop_last(), keys, query, k);
        match word_distance(keys, words.last(), query) {
            None => {},
            Some(d) => {
                let c = (words.last(), d);
                lemma_insert_candidate(prev, k, c);
                let f = insert_candidate(prev, k, c);
                if (d as int) < bound_of(prev, k) {
                    let pos = insert_position(prev, d) as int;
                    crate::top_k::lemma_insert_position(prev, d);
                    assert forall|i: int| 0 <= i < f.len() implies #[trigger] f[i].1 < INFINITE_DISTANCE by {
                        let t = prev.insert(pos, c);
                        assert(f[i] == t[i]);
                        if i < pos {
                            assert(t[i] == prev[i]);
                        } else if i > pos {
                            assert(t[i] == prev[i - 1]);
                        }
                    }
                }
            },
        }
    }
}

/// Word `x` comes before word `y` in the scan order of `words`.
pub open spec fn scanned_before(words: Seq<Seq<char>>, x: Seq<char>, y: Seq<char>) -> bool {
    exists|a: int, b: int| 0 <= a < b < words.len() && words[a] == x && words[b] == y
}

proof fn lemma_scanned_before_extend(t: Seq<Seq<char>>, x: Seq<char>, y: Seq<char>, last: Seq<char>)
    requires
        scanned_before(t, x, y),
    ensures
        scanned_before(t.push(last), x, y),
{
    let (a, b) = choose|a: int, b: int| 0 <= a < b < t.len() && t[a] == x && t[b] == y;
    assert(t.push(last)[a] == x && t.push(last)[b] == y);
}

/// Every word of the ranking is a dictionary word, and of two words at the
/// same distance the one scanned first ranks first.
pub proof fn lemma_ranking_ties_in_scan_order(words: Seq<Seq<char>>, keys: Seq<(char, Point)>, query: Seq<Point>, k: nat)
    requires
        k > 0,
    ensures
        forall|i: int| 0 <= i < exhaustive_ranking(words, keys, query, k).len()
            ==> words.contains(#[trigger] exhaustive_ranking(words, keys, query, k)[i].0),
        forall|i: int, j: int| 0 <= i < j < exhaustive_ranking(words, keys, query, k).len()
            && exhaustive_ranking(words, keys, query, k)[i].1 == exhaustive_ranking(words, keys, query, k)[j].1
            ==> scanned_before(words, exhaustive_ranking(words, keys, query, k)[i].0, exhaustive_ranking(words, keys, query, k)[j].0),
    decreases words.len(),
{
    if words.len() > 0 {
        let t = words.drop_last();
        let last = words.last();
        assert(words =~= t.push(last));
        let prev = exhaustive_ranking(t, keys, query, k);
        let r = exhaustive_ranking(words, keys, query, k);
        lemma_ranking_ties_in_scan_order(t, keys, query, k);
        lemma_ranking_shape(t, keys, query, k);
        assert forall|x: Seq<char>| t.contains(x) implies words.contains(x) by {
            let a = choose|a: int| 0 <= a < t.len() && t[a] == x;
            assert(words[a] == x);
        }
        let in_prev_ok = forall|i: int, j: int| 0 <= i < j < prev.len() && prev[i].1 == prev[j].1
            ==> scanned_before(words, prev[i].0, prev[j].0);
        assert(in_prev_ok) by {
            assert forall|i: int, j: int| 0 <= i < j < prev.len() && prev[i].1 == prev[j].1
                implies scanned_before(words, prev[i].0, prev[j].0) by {
                lemma_scanned_before_extend(t, prev[i].0, prev[j].0, last);
            }
        }
        match word_distance(keys, last, query) {
            None => {},
            Some(d) => {
                let c = (last, d);
                if (d as int) < bound_of(prev, k) {
                    let p = insert_position(prev, d) as int;
                    crate::top_k::lemma_insert_position(prev, d);
                    let u = prev.insert(p, c);
                    assert forall|i: int| 0 <= i < r.len() implies words.contains(#[trigger] r[i].0) by {
                        assert(r[i] == u[i]);
                        if i < p {
                            assert(u[i] == prev[i]);
                        } else if i > p {
                            assert(u[i] == prev[i - 1]);
                        } else {
                            assert(words[words.len() - 1] == last);
                        }
                    }
                    assert forall|i: int, j: int| 0 <= i < j < r.len() && r[i].1 == r[j].1
                        implies scanned_before(words, r[i].0, r[j].0) by {
                        assert(r[i] == u[i] && r[j] == u[j]);
                        if j < p {
                            assert(u[i] == prev[i] && u[j] == prev[j]);
                        } else if j == p {
                            assert(u[i] == prev[i]);
                            let a = choose|a: int| 0 <= a < t.len() && t[a] == prev[i].0;
                            assert(words[a] == prev[i].0);
                            assert(words[words.len() - 1] == last);
                        } else if i < p {
                            assert(u[i] == prev[i] && u[j] == prev[j - 1]);
                        } else if i == p {
                            assert(u[j] == prev[j - 1]);
                        } else {
                            assert(u[i] == prev[i - 1] && u[j] == prev[j - 1]);
                        }
                    }
                }
            },
        }
    }
}

/// The average spacing between consecutive points of the drawn path.
pub fn query_spacing(query: &Vec<Point>) -> (r: u64)
    ensures
        r == point_spacing(query@),
{
    if query.len() < 2 {
        return 0;
    }
    let total = polyline_length(query);
    let n = (query.len() - 1) as u128;
    proof {
        vstd::arithmetic::div_mod::lemma_div_is_ordered(total as int, (n * 0x2_0000_0000) as int, n as int);
        vstd::arithmetic::div_mod::lemma_div_by_multiple(0x2_0000_0000, n as int);
        assert(n * 0x2_0000_0000 == 0x2_0000_0000 * n);
    }
    (total / n) as u64
}

/// The band half-width for a drawn path of `n` points.
pub fn window(n: usize) -> (w: usize)
    ensures
        w == window_for(n as nat),
{
    n / 10 + if n % 10 >= 5 {
        1
    } else {
        0
    }
}

/// Which pruning steps a scan takes. Each leaves the ranking unchanged.
#[derive(Clone, Copy, Debug, PartialEq, Eq, Structural)]
pub enum Pruning {
    /// No pruning: every warping distance is computed in full.
    Exhaustive,
    /// The endpoint bound before a path is built, and abandoning a
    /// warping computation once a whole row reaches the k-th distance.
    EndpointBound,
    /// Abandoning a warping computation once a row plus a lower bound for
    /// the rows still to come reaches the k-th distance.
    CumulativeBound,
    /// Both of the above.
    Both,
}

/// The waypoints of every dictionary word, built once for a dictionary and a
/// layout and read by each later scan.
pub struct PathCache {
    paths: Vec<WordPath>,
}

impl PathCache {
    /// The waypoints of each word, in the dictionary's scan order.
    pub closed spec fn view(&self) -> Seq<Seq<Point>> {
        self.paths@.map_values(|p: WordPath| p.view())
    }

    /// Holds the waypoints of each word of `dict` on `layout`.
    pub open spec fn is_built_for(&self, dict: &Dictionary, layout: &KeyLayout) -> bool {
        &&& self.view().len() == dict.view().len()
        &&& forall|i: int| 0 <= i < dict.view().len() ==> #[trigger] self.view()[i] == waypoints(layout.view(), dict.view()[i])
    }

    /// Builds the waypoints of every word of `dict` on `layout`.
    pub fn build(dict: &Dictionary, layout: &KeyLayout) -> (c: PathCache)
        ensures
            c.is_built_for(dict, layout),
    {
        let mut paths: Vec<WordPath> = Vec::new();
        let mut i: usize = 0;
        while i < dict.len()
            invariant
                i <= dict.view().len(),
                paths.len() == i,
                forall|j: int| 0 <= j < i ==> #[trigger] paths@[j].view() == waypoints(layout.view(), dict.view()[j]),
            decreases dict.view().len() - i,
        {
            paths.push(WordPath::new(layout, dict.word(i).as_str()));
            i += 1;
        }
        let c = PathCache { paths };
        assert forall|j: int| 0 <= j < dict.view().len() implies #[trigger] c.view()[j] == waypoints(layout.view(), dict.view()[j]) by {
            assert(c.view()[j] == c.paths@[j].view());
        }
        c
    }

    /// The waypoints of the word at place `i`.
    pub fn path(&self, i: usize) -> (p: &WordPath)
        requires
            i < self.view().len(),
        ensures
            p.view() == self.view()[i as int],
    {
        &self.paths[i]
    }
}

/// Offers one word, with waypoints `wp`, to the tracker: the word goes in as
/// its full warping distance would put it, whatever the pruning.
fn offer_word(
    top: &mut TopK,
    word: &String,
    wp: &WordPath,
    query: &Vec<Point>,
    spacing: u64,
    w: usize,
    pruning: Pruning,
)
    requires
        old(top).wf(),
        query@.len() > 0,
        spacing == point_spacing(query@),
        w == window_for(query@.len()),
    ensures
        final(top).wf(),
        final(top).capacity() == old(top).capacity(),
        final(top).view() == match path_distance(wp.view(), query@) {
            None => old(top).view(),
            Some(d) => insert_candidate(old(top).view(), old(top).capacity(), (word@, d)),
        },
{
    let wpts = wp.waypoints();
    if wpts.len() == 0 {
        return;
    }
    let ghost q = query@;
    let ghost path = resample(wpts@, spacing as nat);
    let ghost full = dtw_distance(path, q, w as int);
    proof {
        lemma_resample_endpoints(wpts@, spacing as nat);
        lemma_endpoint_bound_is_lower_bound(path, q, w as nat);
        assert(endpoint_bound(path, q) == endpoint_bound(wpts@, q));
        crate::dtw::lemma_dtw_range(path, q, w as int);
    }
    let bsf = top.current_bound();
    let use_endpoint = pruning == Pruning::EndpointBound || pruning == Pruning::Both;
    if use_endpoint && estimate_and_maybe_skip(wpts, query, bsf) {
        return;
    }
    match wp.get_path(spacing) {
        Some(candidate_path) => {
            let d = if pruning == Pruning::Exhaustive {
                dtw(&candidate_path, query, w)
            } else if pruning == Pruning::EndpointBound {
                bounded_dtw(&candidate_path, query, w, bsf)
            } else {
                cumulative_bounded_dtw(&candidate_path, query, w, bsf)
            };
            if d < bsf {
                top.insert(Candidate { word: word.clone(), distance: d });
            }
        },
        None => {},
    }
}

/// The `k` words whose ideal paths lie closest to the drawn path `query`,
/// best first, with the waypoints taken from `cache` where one is given and
/// built from the layout otherwise, and with the pruning steps that
/// `pruning` names. The ranking is the exhaustive one in every case.
pub fn recognize_with(
    query: &Vec<Point>,
    dict: &Dictionary,
    layout: &KeyLayout,
    cache: Option<&PathCache>,
    pruning: Pruning,
    k: usize,
) -> (r: Result<Vec<Candidate>, RecognizeError>)
    requires
        cache matches Some(c) ==> c.is_built_for(dict, layout),
    ensures
        query@.len() == 0 ==> r == Err::<Vec<Candidate>, RecognizeError>(RecognizeError::EmptyQuery),
        query@.len() > 0 && k == 0 ==> r == Err::<Vec<Candidate>, RecognizeError>(RecognizeError::InvalidParameter),
        query@.len() > 0 && k > 0 && (dict.view().len() == 0 || layout.view().len() == 0)
            ==> r == Err::<Vec<Candidate>, RecognizeError>(RecognizeError::NotInitialized),
        query@.len() > 0 && k > 0 && dict.view().len() > 0 && layout.view().len() > 0 ==> (r matches Ok(list)
            && candidates_view(list@) == exhaustive_ranking(dict.view(), layout.view(), query@, k as nat)
            && sorted_by_distance(candidates_view(list@))
            && (forall|i: int, j: int| 0 <= i < j < list@.len() && list@[i].distance == list@[j].distance
                ==> scanned_before(dict.view(), list@[i].word@, list@[j].word@))
            && list@.len() == if reachable_count(dict.view(), layout.view(), query@) < k {
                reachable_count(dict.view(), layout.view(), query@)
            } else {
                k as nat
            }),
{
    if query.len() == 0 {
        return Err(RecognizeError::EmptyQuery);
    }
    if k == 0 {
        return Err(RecognizeError::InvalidParameter);
    }
    if dict.is_empty() || layout.is_empty() {
        return Err(RecognizeError::NotInitialized);
    }
    let spacing = query_spacing(query);
    let w = window(query.len());
    let ghost words = dict.view();
    let ghost keys = layout.view();
    let mut top = TopK::new(k);
    let mut i: usize = 0;
    assert(words.take(0) =~= Seq::<Seq<char>>::empty());
    while i < dict.len()
        invariant
            i <= words.len(),
            words == dict.view(),
            keys == layout.view(),
            cache matches Some(c) ==> c.is_built_for(dict, layout),
            query@.len() > 0,
            spacing == point_spacing(query@),
            w == window_for(query@.len()),
            top.wf(),
            top.capacity() == k,
            top.view() == exhaustive_ranking(words.take(i as int), keys, query@, k as nat),
        decreases words.len() - i,
    {
        let word = dict.word(i);
        assert(words.take(i + 1).drop_last() =~= words.take(i as int));
        assert(words.take(i + 1).last() == word@);
        match cache {
            Some(c) => {
                offer_word(&mut top, word, c.path(i), query, spacing, w, pruning);
            },
            None => {
                let wp = WordPath::new(layout, word.as_str());
                offer_word(&mut top, word, &wp, query, spacing, w, pruning);
            },
        }
        i += 1;
    }
    assert(words.take(words.len() as int) =~= words);
    proof {
        lemma_ranking_shape(words, keys, query@, k as nat);
        lemma_ranking_ties_in_scan_order(words, keys, query@, k as nat);
    }
    let list = top.into_candidates();
    assert forall|i: int, j: int| 0 <= i < j < list@.len() && list@[i].distance == list@[j].distance
        implies scanned_before(words, list@[i].word@, list@[j].word@) by {
        let r = exhaustive_ranking(words, keys, query@, k as nat);
        assert(candidates_view(list@) == r);
        assert(candidates_view(list@)[i] == list@[i]@ && candidates_view(list@)[j] == list@[j]@);
        assert(r[i].1 == r[j].1);
        assert(scanned_before(words, r[i].0, r[j].0));
    }
    Ok(list)
}

/// The `k` words whose ideal paths lie closest to the drawn path `query`,
/// best first, with both pruning steps and waypoints built on demand.
///
/// The ranking is the one that an exhaustive scan, with every warping
/// distance computed in full, gives: pruning changes the work done, never
/// the answer.
pub fn recognize(query: &Vec<Point>, dict: &Dictionary, layout: &KeyLayout, k: usize) -> (r: Result<Vec<Candidate>, RecognizeError>)
    ensures
        query@.len() == 0 ==> r == Err::<Vec<Candidate>, RecognizeError>(RecognizeError::EmptyQuery),
        query@.len() > 0 && k == 0 ==> r == Err::<Vec<Candidate>, RecognizeError>(RecognizeError::InvalidParameter),
        query@.len() > 0 && k > 0 && (dict.view().len() == 0 || layout.view().len() == 0)
            ==> r == Err::<Vec<Candidate>, RecognizeError>(RecognizeError::NotInitialized),
        query@.len() > 0 && k > 0 && dict.view().len() > 0 && layout.view().len() > 0 ==> (r matches Ok(list)
            && candidates_view(list@) == exhaustive_ranking(dict.view(), layout.view(), query@, k as nat)
            && sorted_by_distance(candidates_view(list@))
            && (forall|i: int, j: int| 0 <= i < j < list@.len() && list@[i].distance == list@[j].distance
                ==> scanned_before(dict.view(), list@[i].word@, list@[j].word@))
            && list@.len() == if reachable_count(dict.view(), layout.view(), query@) < k {
                reachable_count(dict.view(), layout.view(), query@)
            } else {
                k as nat
            }),
{
    recognize_with(query, dict, layout, None, Pruning::Both, k)
}

} // verus!
