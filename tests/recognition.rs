use gesture_typing::dictionary::{contains, Dictionary};
use gesture_typing::dtw::dtw;
use gesture_typing::geometry::{Point, INFINITE_DISTANCE};
use gesture_typing::layout::KeyLayout;
use gesture_typing::recognize::{query_spacing, recognize, recognize_with, window, PathCache, Pruning, RecognizeError};
use gesture_typing::top_k::{Candidate, TopK};
use gesture_typing::word_path::WordPath;

fn pt(x: i32, y: i32) -> Point {
    Point { x, y }
}

fn dict(words: &[&str]) -> Dictionary {
    Dictionary::new(words.iter().map(|w| w.to_string()).collect())
}

fn hello_layout() -> KeyLayout {
    KeyLayout::new(vec![
        ('h', pt(100000, 500000)),
        ('e', pt(300000, 500000)),
        ('l', pt(500000, 500000)),
        ('o', pt(700000, 500000)),
    ])
}

fn grid_layout() -> KeyLayout {
    let rows = ["qwertyuiop", "asdfghjkl", "zxcvbnm"];
    let mut keys = Vec::new();
    for (r, row) in rows.iter().enumerate() {
        for (c, ch) in row.chars().enumerate() {
            let x = 50000 + 100000 * c as i32 + 50000 * r as i32;
            let y = 60000 + 120000 * r as i32;
            keys.push((ch, pt(x, y)));
        }
    }
    KeyLayout::new(keys)
}

fn pairs(r: Vec<Candidate>) -> Vec<(String, u64)> {
    r.into_iter().map(|c| (c.word, c.distance)).collect()
}

/// The ranking that an exhaustive scan without pruning gives.
fn exhaustive(query: &Vec<Point>, d: &Dictionary, l: &KeyLayout, k: usize) -> Vec<(String, u64)> {
    let spacing = query_spacing(query);
    let w = window(query.len());
    let mut t = TopK::new(k);
    for i in 0..d.len() {
        let word = d.word(i);
        if let Some(path) = WordPath::new(l, word).get_path(spacing) {
            t.insert(Candidate { word: word.clone(), distance: dtw(&path, query, w) });
        }
    }
    pairs(t.into_candidates())
}

#[test]
fn hello_ranks_first() {
    let query: Vec<Point> = (0..13).map(|i| pt(100000 + 50000 * i, 500000)).collect();
    let r = pairs(recognize(&query, &dict(&["hello", "held", "hoe"]), &hello_layout(), 3).unwrap());
    assert_eq!(r[0], ("hello".to_string(), 0));
    for c in &r[1..] {
        assert!(c.1 > 0);
    }
}

#[test]
fn hello_ranks_first_on_four_points() {
    let query = vec![pt(100000, 500000), pt(300000, 500000), pt(500000, 500000), pt(700000, 500000)];
    let r = pairs(recognize(&query, &dict(&["held", "hoe", "hello"]), &hello_layout(), 3).unwrap());
    assert_eq!(r[0], ("hello".to_string(), 0));
    for c in &r[1..] {
        assert!(c.1 > 0);
    }
}

#[test]
fn single_point_query_gives_point_distance() {
    let layout = KeyLayout::new(vec![('a', pt(0, 0))]);
    let query = vec![pt(30000, 40000)];
    let r = pairs(recognize(&query, &dict(&["a"]), &layout, 3).unwrap());
    assert_eq!(r, vec![("a".to_string(), 50000)]);
}

#[test]
fn empty_query_is_rejected() {
    let query: Vec<Point> = Vec::new();
    let r = recognize(&query, &dict(&["hello"]), &hello_layout(), 3);
    assert!(matches!(r, Err(RecognizeError::EmptyQuery)));
    let r = recognize(&query, &dict(&[]), &KeyLayout::new(Vec::new()), 0);
    assert!(matches!(r, Err(RecognizeError::EmptyQuery)));
}

#[test]
fn zero_k_is_rejected() {
    let query = vec![pt(1, 1)];
    let r = recognize(&query, &dict(&["hello"]), &hello_layout(), 0);
    assert!(matches!(r, Err(RecognizeError::InvalidParameter)));
}

#[test]
fn missing_dictionary_or_layout_is_rejected() {
    let query = vec![pt(1, 1)];
    let r = recognize(&query, &dict(&[]), &hello_layout(), 3);
    assert!(matches!(r, Err(RecognizeError::NotInitialized)));
    let r = recognize(&query, &dict(&["hello"]), &KeyLayout::new(Vec::new()), 3);
    assert!(matches!(r, Err(RecognizeError::NotInitialized)));
}

#[test]
fn words_without_path_are_left_out() {
    let query = vec![pt(100000, 500000)];
    let r = pairs(recognize(&query, &dict(&["", "xyz", "h"]), &hello_layout(), 3).unwrap());
    assert_eq!(r, vec![("h".to_string(), 0)]);
}

#[test]
fn pruning_does_not_change_the_ranking() {
    let layout = grid_layout();
    let d = dict(&[
        "the", "they", "then", "there", "three", "tree", "type", "try", "trip", "top", "pot", "quit", "quiet",
        "we", "were", "wire", "fire", "fir", "a", "as", "ask", "sad", "zoo", "", "mom", "moon", "noon",
    ]);
    let queries: Vec<Vec<Point>> = vec![
        // t -> h -> e, sampled roughly
        vec![pt(450000, 60000), pt(500000, 120000), pt(560000, 180000), pt(450000, 120000), pt(300000, 60000)],
        (0..20).map(|i| pt(50000 + 40000 * i, 60000 + 6000 * i)).collect(),
        vec![pt(700000, 300000)],
        (0..9).map(|i| pt(800000 - 90000 * i, 60000 + 30000 * (i % 3))).collect(),
    ];
    for query in &queries {
        for k in [1usize, 3, 7, 40] {
            let pruned = pairs(recognize(query, &d, &layout, k).unwrap());
            assert_eq!(pruned, exhaustive(query, &d, &layout, k));
            assert!(pruned.len() <= k);
            for pair in pruned.windows(2) {
                assert!(pair[0].1 <= pair[1].1);
            }
            for c in &pruned {
                assert!(c.1 < INFINITE_DISTANCE);
            }
        }
    }
}

#[test]
fn dictionary_keeps_first_of_each_word() {
    let d = dict(&["b", "a", "b", "c", "a"]);
    assert_eq!(d.len(), 3);
    assert_eq!(d.word(0), "b");
    assert_eq!(d.word(1), "a");
    assert_eq!(d.word(2), "c");
    assert!(!d.is_empty());
    assert!(dict(&[]).is_empty());
}

#[test]
fn membership_is_literal() {
    let d = dict(&["hello", "held"]);
    assert!(contains("hello", &d));
    assert!(!contains("hell", &d));
    assert!(!contains("Hello", &d));
    assert!(!contains("", &d));
    assert!(d.contains("held"));
}

#[test]
fn membership_is_stable_across_calls() {
    let d = dict(&["hello", "held", "hoe"]);
    let first: Vec<bool> = ["hoe", "x", "held"].iter().map(|w| contains(w, &d)).collect();
    let again: Vec<bool> = ["held", "x", "hoe"].iter().rev().map(|w| contains(w, &d)).collect();
    assert_eq!(first, vec![true, false, true]);
    assert_eq!(again, vec![true, false, true]);
    for _ in 0..3 {
        assert!(contains("hoe", &d));
        assert!(!contains("x", &d));
    }
}

#[test]
fn every_strategy_and_cache_mode_agree() {
    let layout = grid_layout();
    let d = dict(&["we", "were", "wire", "fire", "fir", "tree", "three", "there", "the", "a", "zoo", "quiet"]);
    let cache = PathCache::build(&d, &layout);
    let queries: Vec<Vec<Point>> = vec![
        vec![pt(150000, 60000), pt(250000, 60000), pt(350000, 60000), pt(450000, 60000), pt(250000, 60000)],
        (0..12).map(|i| pt(400000 - 20000 * i, 60000 + 10000 * i)).collect(),
        vec![pt(60000, 180000)],
    ];
    for query in &queries {
        for k in [1usize, 2, 5, 20] {
            let expected = exhaustive(query, &d, &layout, k);
            for pruning in [Pruning::Exhaustive, Pruning::EndpointBound, Pruning::CumulativeBound, Pruning::Both] {
                let lazy = pairs(recognize_with(query, &d, &layout, None, pruning, k).unwrap());
                let eager = pairs(recognize_with(query, &d, &layout, Some(&cache), pruning, k).unwrap());
                assert_eq!(lazy, expected);
                assert_eq!(eager, expected);
            }
        }
    }
}

#[test]
fn cache_holds_each_words_waypoints() {
    let layout = hello_layout();
    let d = dict(&["hello", "", "oh"]);
    let cache = PathCache::build(&d, &layout);
    assert_eq!(cache.path(0).waypoints().len(), 4);
    assert_eq!(cache.path(1).first_last_points(), None);
    assert_eq!(
        cache.path(2).first_last_points(),
        Some((pt(700000, 500000), pt(100000, 500000)))
    );
}

#[test]
fn spacing_is_length_over_legs() {
    // length 30 over 2 legs: spacing 15, so "ab" walks to (0,0), (15,0), (20,0)
    let layout = KeyLayout::new(vec![('a', pt(0, 0)), ('b', pt(20, 0))]);
    let query = vec![pt(0, 0), pt(10, 0), pt(30, 0)];
    assert_eq!(query_spacing(&query), 15);
    assert_eq!(WordPath::new(&layout, "ab").get_path(15).unwrap(), vec![pt(0, 0), pt(15, 0), pt(20, 0)]);
    let r = pairs(recognize(&query, &dict(&["ab"]), &layout, 3).unwrap());
    assert_eq!(r, vec![("ab".to_string(), 0 + 5 + 10)]);
}

#[test]
fn ranking_holds_min_of_k_and_reachable_words() {
    let layout = hello_layout();
    let query = vec![pt(100000, 500000)];
    // "h", "e", "l", "o" reach a one-point query; "he" has two points and no alignment
    let d = dict(&["h", "e", "he", "l", "o", "xyz"]);
    assert_eq!(recognize(&query, &d, &layout, 2).unwrap().len(), 2);
    assert_eq!(recognize(&query, &d, &layout, 4).unwrap().len(), 4);
    assert_eq!(recognize(&query, &d, &layout, 9).unwrap().len(), 4);
}

#[test]
fn ties_keep_scan_order() {
    let layout = KeyLayout::new(vec![('a', pt(0, 0)), ('b', pt(0, 10)), ('c', pt(10, 0)), ('d', pt(0, 20))]);
    let query = vec![pt(0, 0)];
    let r = pairs(recognize(&query, &dict(&["d", "c", "a", "b"]), &layout, 4).unwrap());
    assert_eq!(
        r,
        vec![("a".to_string(), 0), ("c".to_string(), 10), ("b".to_string(), 10), ("d".to_string(), 20)]
    );
}
