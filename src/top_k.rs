use vstd::prelude::*;
use crate::geometry::INFINITE_DISTANCE;
use crate::dtw::inf;

verus! {

/// A word with its distance to the drawn path.
#[derive(Debug)]
pub struct Candidate {
    pub word: String,
    pub distance: u64,
}

impl View for Candidate {
    type V = (Seq<char>, u64);

    open spec fn view(&self) -> (Seq<char>, u64) {
        (self.word@, self.distance)
    }
}

/// The abstract contents of a list of candidates.
pub open spec fn candidates_view(s: Seq<Candidate>) -> Seq<(Seq<char>, u64)> {
    s.map_values(|c: Candidate| c@)
}

/// Ascending by distance.
pub open spec fn sorted_by_distance(s: Seq<(Seq<char>, u64)>) -> bool {
    forall|i: int, j: int| 0 <= i < j < s.len() ==> s[i].1 <= s[j].1
}

/// The distance to beat: the k-th distance held, or infinite while a slot
/// is still free.
pub open spec fn bound_of(s: Seq<(Seq<char>, u64)>, k: nat) -> int {
    if s.len() < k {
        inf()
    } else {
        s.last().1 as int
    }
}

/// Where a candidate at distance `d` goes: after every entry that is not
/// farther, so that the first of equal candidates keeps its rank.
pub open spec fn insert_position(s: Seq<(Seq<char>, u64)>, d: u64) -> nat
    decreases s.len(),
{
    if s.len() == 0 {
        0
    } else if s.last().1 <= d {
        s.len()
    } else {
        insert_position(s.drop_last(), d)
    }
}

/// One insertion into a list of capacity `k`: a candidate strictly better
/// than the bound takes its place in order and the k+1-th entry leaves;
/// any other candidate leaves the list as it is.
pub open spec fn insert_candidate(s: Seq<(Seq<char>, u64)>, k: nat, c: (Seq<char>, u64)) -> Seq<(Seq<char>, u64)> {
    if (c.1 as int) < bound_of(s, k) {
        let t = s.insert(insert_position(s, c.1) as int, c);
        if t.len() > k {
            t.drop_last()
        } else {
            t
        }
    } else {
        s
    }
}

/// The list after inserting each of `cs` in turn.
pub open spec fn insert_all(s: Seq<(Seq<char>, u64)>, k: nat, cs: Seq<(Seq<char>, u64)>) -> Seq<(Seq<char>, u64)>
    decreases cs.len(),
{
    if cs.len() == 0 {
        s
    } else {
        insert_candidate(insert_all(s, k, cs.drop_last()), k, cs.last())
    }
}

pub proof fn lemma_insert_position(s: Seq<(Seq<char>, u64)>, d: u64)
    requires
        sorted_by_distance(s),
    ensures
        insert_position(s, d) <= s.len(),
        forall|i: int| 0 <= i < insert_position(s, d) ==> s[i].1 <= d,
        forall|i: int| insert_position(s, d) <= i < s.len() ==> s[i].1 > d,
    decreases s.len(),
{
    if s.len() > 0 {
        let n = s.len() - 1;
        if s.last().1 > d {
            let t = s.drop_last();
            assert(sorted_by_distance(t));
            lemma_insert_position(t, d);
            assert forall|i: int| insert_position(s, d) <= i < s.len() implies s[i].1 > d by {
                if i < n {
                    assert(t[i] == s[i]);
                }
            }
            assert forall|i: int| 0 <= i < insert_position(s, d) implies s[i].1 <= d by {
                assert(t[i] == s[i]);
            }
        } else {
            assert forall|i: int| 0 <= i < s.len() implies s[i].1 <= d by {
                if i < n {
                    assert(s[i].1 <= s[n].1);
                }
            }
        }
    }
}

/// What one insertion keeps: order, the capacity, a bound that never rises,
/// every entry still under the new bound, and the candidate itself when it
/// beat the old bound.
pub proof fn lemma_insert_candidate(s: Seq<(Seq<char>, u64)>, k: nat, c: (Seq<char>, u64))
    requires
        k > 0,
        s.len() <= k,
        sorted_by_distance(s),
    ensures
        sorted_by_distance(insert_candidate(s, k, c)),
        insert_candidate(s, k, c).len() <= k,
        bound_of(insert_candidate(s, k, c), k) <= bound_of(s, k),
        forall|x: (Seq<char>, u64)| s.contains(x) && (x.1 as int) < bound_of(insert_candidate(s, k, c), k)
            ==> insert_candidate(s, k, c).contains(x),
        (c.1 as int) < bound_of(s, k) ==> insert_candidate(s, k, c).contains(c),
{
    let f = insert_candidate(s, k, c);
    if (c.1 as int) < bound_of(s, k) {
        let p = insert_position(s, c.1) as int;
        lemma_insert_position(s, c.1);
        let t = s.insert(p, c);
        assert(sorted_by_distance(t)) by {
            assert forall|i: int, j: int| 0 <= i < j < t.len() implies t[i].1 <= t[j].1 by {
                if j < p {
                } else if j == p {
                } else if i < p {
                } else if i == p {
                } else {
                }
            }
        }
        if s.len() == k {
            assert(p < k) by {
                assert(s[k - 1].1 > c.1);
            }
        }
        assert(t[p] == c);
        assert forall|x: (Seq<char>, u64)| s.contains(x) && (x.1 as int) < bound_of(f, k) implies f.contains(x) by {
            let i = choose|i: int| 0 <= i < s.len() && s[i] == x;
            if i < p {
                assert(f[i] == x);
            } else if i + 1 < f.len() {
                assert(f[i + 1] == x);
            } else {
                assert(t.len() > k);
                assert(f.len() == k);
                assert(t[i + 1] == x);
                assert(f.last().1 <= x.1);
            }
        }
        if t.len() > k {
            assert(f[p] == c);
            assert(f.last() == t[k - 1]);
            assert(t[k - 1].1 <= t[k as int].1);
        } else {
            assert(f[p] == c);
        }
    }
}

/// After any sequence of insertions into an empty tracker of capacity `k`,
/// it holds at most `k` entries in ascending order of distance, and every
/// candidate that was rejected or pushed out lies at or beyond the current
/// k-th distance: a candidate below it is still held.
pub proof fn lemma_top_k_invariants(k: nat, cs: Seq<(Seq<char>, u64)>)
    requires
        k > 0,
    ensures
        insert_all(Seq::empty(), k, cs).len() <= k,
        sorted_by_distance(insert_all(Seq::empty(), k, cs)),
        forall|i: int| 0 <= i < cs.len() && (cs[i].1 as int) < bound_of(insert_all(Seq::empty(), k, cs), k)
            ==> insert_all(Seq::empty(), k, cs).contains(cs[i]),
    decreases cs.len(),
{
    if cs.len() > 0 {
        let prev = insert_all(Seq::empty(), k, cs.drop_last());
        lemma_top_k_invariants(k, cs.drop_last());
        lemma_insert_candidate(prev, k, cs.last());
        let f = insert_all(Seq::empty(), k, cs);
        assert forall|i: int| 0 <= i < cs.len() && (cs[i].1 as int) < bound_of(f, k) implies f.contains(cs[i]) by {
            if i < cs.len() - 1 {
                assert(cs.drop_last()[i] == cs[i]);
            }
        }
    }
}

/// The k best candidates seen so far, ascending by distance.
pub struct TopK {
    k: usize,
    entries: Vec<Candidate>,
}

impl TopK {
    /// The entries held, best first.
    pub closed spec fn view(&self) -> Seq<(Seq<char>, u64)> {
        candidates_view(self.entries@)
    }

    /// The number of slots.
    pub closed spec fn capacity(&self) -> nat {
        self.k as nat
    }

    pub closed spec fn wf(&self) -> bool {
        &&& self.k > 0
        &&& self.entries.len() <= self.k
        &&& sorted_by_distance(self.view())
    }

    /// An empty tracker with `k` slots.
    pub fn new(k: usize) -> (t: TopK)
        requires
            k > 0,
        ensures
            t.wf(),
            t.capacity() == k,
            t.view() == Seq::<(Seq<char>, u64)>::empty(),
    {
        let t = TopK { k, entries: Vec::new() };
        assert(t.view() =~= Seq::<(Seq<char>, u64)>::empty());
        t
    }

    /// The k-th distance held, infinite while a slot is free.
    pub fn current_bound(&self) -> (r: u64)
        requires
            self.wf(),
        ensures
            r == bound_of(self.view(), self.capacity()),
    {
        if self.entries.len() < self.k {
            INFINITE_DISTANCE
        } else {
            self.entries[self.entries.len() - 1].distance
        }
    }

    /// Inserts a candidate if it is strictly better than the k-th distance.
    pub fn insert(&mut self, c: Candidate)
        requires
            old(self).wf(),
        ensures
            final(self).wf(),
            final(self).capacity() == old(self).capacity(),
            final(self).view() == insert_candidate(old(self).view(), old(self).capacity(), c@),
    {
        let ghost v = self.view();
        let ghost cv = c@;
        proof {
            lemma_insert_candidate(v, self.k as nat, cv);
        }
        if c.distance < self.current_bound() {
            let mut pos: usize = self.entries.len();
            assert(v.take(pos as int) =~= v);
            while pos > 0 && self.entries[pos - 1].distance > c.distance
                invariant
                    pos <= self.entries.len(),
                    v == candidates_view(self.entries@),
                    insert_position(v, c.distance) == insert_position(v.take(pos as int), c.distance),
                decreases pos,
            {
                assert(v.take(pos as int).drop_last() =~= v.take(pos - 1));
                pos -= 1;
            }
            if pos > 0 {
                assert(v.take(pos as int).last() == v[pos - 1]);
            }
            self.entries.insert(pos, c);
            assert(candidates_view(self.entries@) =~= v.insert(pos as int, cv));
            if self.entries.len() > self.k {
                let _ = self.entries.pop();
                assert(candidates_view(self.entries@) =~= v.insert(pos as int, cv).drop_last());
            }
        }
    }

    /// The entries held, best first.
    pub fn into_candidates(self) -> (r: Vec<Candidate>)
        ensures
            candidates_view(r@) == self.view(),
    {
        self.entries
    }
}

} // verus!
