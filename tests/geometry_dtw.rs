use gesture_typing::dtw::{bounded_dtw, cumulative_bounded_dtw, dtw, endpoint_lower_bound, estimate_and_maybe_skip};
use gesture_typing::geometry::{integer_sqrt, point_distance, Point, INFINITE_DISTANCE};

fn pt(x: i32, y: i32) -> Point {
    Point { x, y }
}

fn line(xs: &[i32]) -> Vec<Point> {
    xs.iter().map(|&x| pt(x, 0)).collect()
}

#[test]
fn integer_sqrt_rounds_down() {
    assert_eq!(integer_sqrt(0), 0);
    assert_eq!(integer_sqrt(1), 1);
    assert_eq!(integer_sqrt(15), 3);
    assert_eq!(integer_sqrt(16), 4);
    assert_eq!(integer_sqrt(17), 4);
    assert_eq!(integer_sqrt(1u128 << 64), 1u64 << 32);
    assert_eq!(integer_sqrt((1u128 << 64) - 1), (1u64 << 32) - 1);
}

#[test]
fn distance_is_euclidean() {
    assert_eq!(point_distance(&pt(0, 0), &pt(3, 4)), 5);
    assert_eq!(point_distance(&pt(3, 4), &pt(0, 0)), 5);
    assert_eq!(point_distance(&pt(-5, -5), &pt(-5, -5)), 0);
    assert_eq!(point_distance(&pt(0, 0), &pt(1, 1)), 1);
    assert_eq!(point_distance(&pt(i32::MIN, i32::MIN), &pt(i32::MAX, i32::MAX)), 6074000998);
}

#[test]
fn dtw_of_equal_paths_is_zero() {
    let a = line(&[0, 10, 20, 30]);
    assert_eq!(dtw(&a, &a, 0), 0);
    assert_eq!(dtw(&a, &a, 2), 0);
}

#[test]
fn dtw_single_points_is_their_distance() {
    let a = vec![pt(0, 0)];
    let b = vec![pt(30000, 40000)];
    assert_eq!(dtw(&a, &b, 0), 50000);
}

#[test]
fn dtw_warps_repeated_points() {
    let a = line(&[0, 10, 20]);
    let b = line(&[0, 0, 10, 20]);
    assert_eq!(dtw(&a, &b, 1), 0);
    // outside the band no alignment exists
    assert_eq!(dtw(&a, &b, 0), INFINITE_DISTANCE);
}

#[test]
fn dtw_sums_local_costs() {
    let a = line(&[0, 10, 20]);
    let b = line(&[1, 12, 23]);
    assert_eq!(dtw(&a, &b, 0), 1 + 2 + 3);
    assert_eq!(dtw(&a, &b, 1), 6);
}

#[test]
fn dtw_of_empty_path_is_infinite() {
    let a: Vec<Point> = Vec::new();
    let b = line(&[0]);
    assert_eq!(dtw(&a, &b, 5), INFINITE_DISTANCE);
    assert_eq!(dtw(&b, &a, 5), INFINITE_DISTANCE);
}

#[test]
fn bounded_dtw_is_exact_below_cutoff() {
    let a = line(&[0, 10, 20]);
    let b = line(&[1, 12, 23]);
    assert_eq!(bounded_dtw(&a, &b, 1, 7), 6);
    assert_eq!(bounded_dtw(&a, &b, 1, INFINITE_DISTANCE), 6);
}

#[test]
fn bounded_dtw_abandons_at_cutoff() {
    let a = line(&[0, 10, 20]);
    let b = line(&[100, 110, 120]);
    let full = dtw(&a, &b, 1);
    assert_eq!(full, 300);
    let r = bounded_dtw(&a, &b, 1, 50);
    assert!(r >= 50);
    let r = bounded_dtw(&a, &b, 1, 300);
    assert!(r >= 300);
}

#[test]
fn endpoint_bound_values() {
    let a = line(&[0, 10, 20]);
    let b = line(&[3, 50, 24]);
    assert_eq!(endpoint_lower_bound(&a, &b), 3 + 4);
    assert!(endpoint_lower_bound(&a, &b) <= dtw(&a, &b, 10));
    let p = vec![pt(0, 0)];
    let q = vec![pt(3, 4)];
    assert_eq!(endpoint_lower_bound(&p, &q), 5);
    assert_eq!(dtw(&p, &q, 0), 5);
}

#[test]
fn endpoint_bound_below_dtw_on_samples() {
    let paths = vec![
        line(&[0]),
        line(&[5, 7]),
        vec![pt(0, 0), pt(100, 40), pt(-30, 20), pt(7, 7)],
        vec![pt(9, 1), pt(9, 1), pt(50, 50)],
        vec![pt(-100, 3), pt(0, 0), pt(60, -20), pt(61, -20), pt(200, 0)],
    ];
    for a in &paths {
        for b in &paths {
            assert!(endpoint_lower_bound(a, b) <= dtw(a, b, 100));
            assert!(endpoint_lower_bound(a, b) <= dtw(a, b, 1));
        }
    }
}

#[test]
fn prefilter_skips_only_above_cutoff() {
    let a = line(&[0, 10, 20]);
    let b = line(&[3, 50, 24]);
    assert!(estimate_and_maybe_skip(&a, &b, 6));
    assert!(!estimate_and_maybe_skip(&a, &b, 7));
    assert!(!estimate_and_maybe_skip(&a, &b, INFINITE_DISTANCE));
}

#[test]
fn cumulative_dtw_is_exact_below_cutoff() {
    let a = line(&[0, 10, 20]);
    let b = line(&[1, 12, 23]);
    assert_eq!(cumulative_bounded_dtw(&a, &b, 1, 7), 6);
    assert_eq!(cumulative_bounded_dtw(&a, &b, 0, INFINITE_DISTANCE), 6);
    let p = vec![pt(0, 0), pt(100, 40), pt(-30, 20), pt(7, 7)];
    let q = vec![pt(9, 1), pt(9, 1), pt(50, 50)];
    assert_eq!(cumulative_bounded_dtw(&p, &q, 3, INFINITE_DISTANCE), dtw(&p, &q, 3));
    assert_eq!(cumulative_bounded_dtw(&q, &p, 3, INFINITE_DISTANCE), dtw(&q, &p, 3));
}

#[test]
fn cumulative_dtw_abandons_at_cutoff() {
    let a = line(&[0, 10, 20, 30]);
    let b = line(&[100, 110, 120, 130]);
    assert_eq!(dtw(&a, &b, 1), 400);
    assert!(cumulative_bounded_dtw(&a, &b, 1, 150) >= 150);
    assert!(cumulative_bounded_dtw(&a, &b, 1, 400) >= 400);
    assert_eq!(cumulative_bounded_dtw(&a, &b, 1, 401), 400);
    let empty: Vec<Point> = Vec::new();
    assert_eq!(cumulative_bounded_dtw(&a, &empty, 1, 10), INFINITE_DISTANCE);
}
