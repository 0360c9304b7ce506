use vstd::prelude::*;

verus! {

/// The words of `s` in order, each kept at its first occurrence only.
pub open spec fn distinct_words(s: Seq<Seq<char>>) -> Seq<Seq<char>>
    decreases s.len(),
{
    if s.len() == 0 {
        Seq::empty()
    } else {
        let d = distinct_words(s.drop_last());
        if d.contains(s.last()) {
            d
        } else {
            d.push(s.last())
        }
    }
}

pub open spec fn strings_view(s: Seq<String>) -> Seq<Seq<char>> {
    s.map_values(|w: String| w@)
}

/// The candidate words, each once, in a fixed scan order.
pub struct Dictionary {
    words: Vec<String>,
}

impl Dictionary {
    /// The words in scan order.
    pub closed spec fn view(&self) -> Seq<Seq<char>> {
        strings_view(self.words@)
    }

    /// A dictionary of the given words; a word given twice is kept once, at
    /// its first place.
    pub fn new(words: Vec<String>) -> (d: Dictionary)
        ensures
            d.view() == distinct_words(strings_view(words@)),
            d.view().no_duplicates(),
    {
        let ghost input = strings_view(words@);
        let mut kept: Vec<String> = Vec::new();
        let mut i: usize = 0;
        assert(input.take(0) =~= Seq::<Seq<char>>::empty());
        assert(strings_view(kept@) =~= Seq::<Seq<char>>::empty());
        while i < words.len()
            invariant
                i <= words.len(),
                input == strings_view(words@),
                strings_view(kept@) == distinct_words(input.take(i as int)),
            decreases words.len() - i,
        {
            assert(input.take(i + 1).drop_last() =~= input.take(i as int));
            assert(input.take(i + 1).last() == words@[i as int]@);
            let d = Dictionary { words: kept };
            let seen = d.contains(words[i].as_str());
            kept = d.words;
            if !seen {
                kept.push(words[i].clone());
                assert(strings_view(kept@) =~= distinct_words(input.take(i as int)).push(words@[i as int]@));
            }
            i += 1;
        }
        assert(input.take(words.len() as int) =~= input);
        proof {
            lemma_distinct_words(input);
        }
        Dictionary { words: kept }
    }

    /// The number of words.
    pub fn len(&self) -> (n: usize)
        ensures
            n == self.view().len(),
    {
        self.words.len()
    }

    /// True when there is no word.
    pub fn is_empty(&self) -> (r: bool)
        ensures
            r == (self.view().len() == 0),
    {
        self.words.len() == 0
    }

    /// The word at place `i` of the scan order.
    pub fn word(&self, i: usize) -> (w: &String)
        requires
            i < self.view().len(),
        ensures
            w@ == self.view()[i as int],
    {
        &self.words[i]
    }

    /// True when `word` is one of the words.
    pub fn contains(&self, word: &str) -> (r: bool)
        ensures
            r == self.view().contains(word@),
    {
        let target = word.to_owned();
        let mut i: usize = 0;
        while i < self.words.len()
            invariant
                i <= self.words.len(),
                target@ == word@,
                forall|j: int| 0 <= j < i ==> self.view()[j] != word@,
            decreases self.words.len() - i,
        {
            if self.words[i] == target {
                assert(self.view()[i as int] == word@);
                return true;
            }
            i += 1;
        }
        false
    }
}

/// Whether `word` is literally one of the dictionary's words.
pub fn contains(word: &str, dict: &Dictionary) -> (r: bool)
    ensures
        r == dict.view().contains(word@),
{
    dict.contains(word)
}

/// `distinct_words` holds each word once, and exactly the words it was given.
pub proof fn lemma_distinct_words(s: Seq<Seq<char>>)
    ensures
        distinct_words(s).no_duplicates(),
        forall|x: Seq<char>| #[trigger] distinct_words(s).contains(x) == s.contains(x),
    decreases s.len(),
{
    if s.len() > 0 {
        let t = s.drop_last();
        lemma_distinct_words(t);
        let d = distinct_words(t);
        assert forall|x: Seq<char>| #[trigger] distinct_words(s).contains(x) == s.contains(x) by {
            assert(s =~= t.push(s.last()));
            assert(s.contains(x) == (t.contains(x) || x == s.last())) by {
                if s.contains(x) && x != s.last() {
                    let i = choose|i: int| 0 <= i < s.len() && s[i] == x;
                    assert(t[i] == x);
                }
                if t.contains(x) {
                    let i = choose|i: int| 0 <= i < t.len() && t[i] == x;
                    assert(s[i] == x);
                }
                if x == s.last() {
                    assert(s[s.len() - 1] == x);
                }
            }
            assert(distinct_words(s).contains(x) == (d.contains(x) || x == s.last())) by {
                if !d.contains(s.last()) {
                    let e = d.push(s.last());
                    if x == s.last() {
                        assert(e[d.len() as int] == x);
                    }
                    if e.contains(x) && x != s.last() {
                        let i = choose|i: int| 0 <= i < e.len() && e[i] == x;
                        assert(d[i] == x);
                    }
                    if d.contains(x) {
                        let i = choose|i: int| 0 <= i < d.len() && d[i] == x;
                        assert(e[i] == x);
                    }
                }
            }
        }
        if !d.contains(s.last()) {
            let e = d.push(s.last());
            assert forall|i: int, j: int| 0 <= i < e.len() && 0 <= j < e.len() && i != j implies e[i] != e[j] by {
                if i < d.len() && j < d.len() {
                } else if i < d.len() {
                    assert(d.contains(d[i]));
                } else {
                    assert(d.contains(d[j]));
                }
            }
        }
    }
}

/// The words of a dictionary are distinct, and they are the words it was
/// built from.
pub proof fn lemma_dictionary_words_unique(words: Seq<String>, dict: Dictionary)
    requires
        dict.view() == distinct_words(strings_view(words)),
    ensures
        dict.view().no_duplicates(),
        forall|x: Seq<char>| #[trigger] dict.view().contains(x) == strings_view(words).contains(x),
{
    lemma_distinct_words(strings_view(words));
}

/// Membership depends on which words were given, not on their order nor on
/// repetitions: two dictionaries built from lists with the same words answer
/// every membership query alike.
pub proof fn lemma_membership_ignores_order_and_repeats(
    first: Seq<Seq<char>>,
    second: Seq<Seq<char>>,
    word: Seq<char>,
)
    requires
        forall|x: Seq<char>| #[trigger] first.contains(x) == second.contains(x),
    ensures
        distinct_words(first).contains(word) == distinct_words(second).contains(word),
{
    lemma_distinct_words(first);
    lemma_distinct_words(second);
}

} // verus!
