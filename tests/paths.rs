use gesture_typing::geometry::{point_distance, polyline_length, Point};
use gesture_typing::layout::KeyLayout;
use gesture_typing::recognize::{query_spacing, window};
use gesture_typing::word_path::WordPath;

fn pt(x: i32, y: i32) -> Point {
    Point { x, y }
}

fn layout() -> KeyLayout {
    KeyLayout::new(vec![
        ('h', pt(100000, 500000)),
        ('e', pt(300000, 500000)),
        ('l', pt(500000, 500000)),
        ('o', pt(700000, 500000)),
    ])
}

#[test]
fn layout_looks_up_centers() {
    let l = layout();
    assert_eq!(l.center('e'), Some(pt(300000, 500000)));
    assert_eq!(l.center('z'), None);
    assert!(!l.is_empty());
    assert!(KeyLayout::new(Vec::new()).is_empty());
}

#[test]
fn layout_first_entry_wins() {
    let l = KeyLayout::new(vec![('a', pt(1, 1)), ('a', pt(2, 2))]);
    assert_eq!(l.center('a'), Some(pt(1, 1)));
}

#[test]
fn waypoints_collapse_repeated_letters() {
    let p = WordPath::new(&layout(), "hello");
    assert_eq!(
        p.waypoints().clone(),
        vec![pt(100000, 500000), pt(300000, 500000), pt(500000, 500000), pt(700000, 500000)]
    );
    assert_eq!(p.first_last_points(), Some((pt(100000, 500000), pt(700000, 500000))));
}

#[test]
fn waypoints_skip_letters_without_key() {
    let p = WordPath::new(&layout(), "held");
    assert_eq!(p.waypoints().len(), 3);
    let q = WordPath::new(&layout(), "h?e");
    assert_eq!(q.waypoints().clone(), vec![pt(100000, 500000), pt(300000, 500000)]);
}

#[test]
fn word_without_keys_has_no_path() {
    let p = WordPath::new(&layout(), "");
    assert_eq!(p.first_last_points(), None);
    assert_eq!(p.get_path(10), None);
    let q = WordPath::new(&layout(), "xyz");
    assert_eq!(q.get_path(10), None);
}

#[test]
fn single_letter_is_one_point() {
    let p = WordPath::new(&layout(), "lll");
    assert_eq!(p.get_path(1000), Some(vec![pt(500000, 500000)]));
    assert_eq!(p.first_last_points(), Some((pt(500000, 500000), pt(500000, 500000))));
}

#[test]
fn resampling_walks_at_fixed_spacing() {
    let p = WordPath::new(&layout(), "he");
    let path = p.get_path(50000).unwrap();
    assert_eq!(
        path,
        vec![pt(100000, 500000), pt(150000, 500000), pt(200000, 500000), pt(250000, 500000), pt(300000, 500000)]
    );
    // a spacing of zero keeps the waypoints alone
    assert_eq!(p.get_path(0).unwrap(), vec![pt(100000, 500000), pt(300000, 500000)]);
    // points at 80000 and 160000 along the leg, then its end
    assert_eq!(
        p.get_path(80000).unwrap(),
        vec![pt(100000, 500000), pt(180000, 500000), pt(260000, 500000), pt(300000, 500000)]
    );
    // and a spacing longer than the leg still keeps both ends
    assert_eq!(p.get_path(10_000_000).unwrap().len(), 2);
}

#[test]
fn resampling_interpolates_backwards_and_diagonally() {
    let l = KeyLayout::new(vec![('a', pt(10, 10)), ('b', pt(0, 0))]);
    let path = WordPath::new(&l, "ab").get_path(3).unwrap();
    // length 14, spacing 3: points at 3, 6, 9 and 12 along the leg
    assert_eq!(path, vec![pt(10, 10), pt(8, 8), pt(6, 6), pt(4, 4), pt(2, 2), pt(0, 0)]);
}

#[test]
fn resampling_keeps_length_close() {
    let l = KeyLayout::new(vec![
        ('q', pt(50000, 100000)),
        ('w', pt(150000, 100000)),
        ('k', pt(750000, 300000)),
        ('m', pt(650000, 500000)),
    ]);
    let p = WordPath::new(&l, "qwkm");
    let through_waypoints = polyline_length(p.waypoints());
    for spacing in [1000u64, 5000, 7919, 25000] {
        let resampled = polyline_length(&p.get_path(spacing).unwrap());
        let diff = if resampled > through_waypoints { resampled - through_waypoints } else { through_waypoints - resampled };
        assert!(diff * 100 <= through_waypoints, "spacing {}: {} vs {}", spacing, resampled, through_waypoints);
    }
}

#[test]
fn polyline_length_and_spacing() {
    let q = vec![pt(0, 0), pt(3, 4), pt(3, 10)];
    assert_eq!(polyline_length(&q), 11);
    assert_eq!(query_spacing(&q), 5);
    assert_eq!(query_spacing(&vec![pt(5, 5)]), 0);
    assert_eq!(polyline_length(&vec![pt(5, 5)]), 0);
    assert_eq!(query_spacing(&Vec::new()), 0);
    assert_eq!(point_distance(&q[0], &q[1]), 5);
}

#[test]
fn window_is_a_rounded_tenth() {
    assert_eq!(window(0), 0);
    assert_eq!(window(4), 0);
    assert_eq!(window(5), 1);
    assert_eq!(window(14), 1);
    assert_eq!(window(15), 2);
    assert_eq!(window(100), 10);
}

#[test]
fn resampling_walks_across_corners() {
    let l = KeyLayout::new(vec![('a', pt(0, 0)), ('b', pt(10, 0)), ('c', pt(10, 10))]);
    let path = WordPath::new(&l, "abc").get_path(4).unwrap();
    // arc lengths 4 and 8 lie on the first leg, 12 and 16 on the second
    assert_eq!(path, vec![pt(0, 0), pt(4, 0), pt(8, 0), pt(10, 2), pt(10, 6), pt(10, 10)]);
}
