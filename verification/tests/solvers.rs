use tsp_ga::map::{Point, PointMap};
use tsp_ga::rnd::{rand_below, rand_index};
use tsp_ga::solve::{branch_and_bound, brute_force, nearest_neighbor, Counter};

fn square_map() -> PointMap {
    PointMap::from_points(vec![
        Point { x: 0, y: 0 },
        Point { x: 1000, y: 0 },
        Point { x: 1000, y: 1000 },
        Point { x: 0, y: 1000 },
    ])
}

#[test]
fn counter_counts_and_saturates() {
    let mut c = Counter::new();
    assert_eq!(c.value(), 0);
    c.increment();
    c.increment();
    assert_eq!(c.value(), 2);
}

#[test]
fn disabled_counter_ignores_increments() {
    let mut c = Counter::disabled();
    c.increment();
    c.increment();
    assert_eq!(c.value(), 0);
}

#[test]
fn brute_force_finds_the_best_open_path_on_the_square() {
    let map = square_map();
    let mut c = Counter::new();
    let (order, best) = brute_force(&map, &mut c);
    assert_eq!(best, 3000);
    assert_eq!(order.len(), 4);
    let mut seen = order.clone();
    seen.sort();
    assert_eq!(seen, vec![0, 1, 2, 3]);
    assert!(c.value() > 0);
}

#[test]
fn brute_force_on_a_single_point() {
    let map = PointMap::from_points(vec![Point { x: 5, y: 5 }]);
    let mut c = Counter::disabled();
    let (order, best) = brute_force(&map, &mut c);
    assert_eq!(order, vec![0]);
    assert_eq!(best, 0);
}

#[test]
fn nearest_neighbor_walks_the_square() {
    // From (0,0) the greedy walk hops along the perimeter: 3 * 1000.
    let map = square_map();
    assert_eq!(nearest_neighbor(&map), 3000);
}

#[test]
fn nearest_neighbor_breaks_ties_toward_the_first_point() {
    // From (0,0) the two candidates at distance 1000 tie; the walk must
    // take the earlier one, ending 1000 + 1000 + 3000.
    let map = PointMap::from_points(vec![
        Point { x: 0, y: 0 },
        Point { x: 1000, y: 0 },
        Point { x: -1000, y: 0 },
        Point { x: 2000, y: 0 },
    ]);
    assert_eq!(nearest_neighbor(&map), 5000);
}

#[test]
fn nearest_neighbor_on_a_right_triangle() {
    // From (0,0): the closer corner first (3000), then the hypotenuse leg
    // (4000).
    let map = PointMap::from_points(vec![
        Point { x: 0, y: 0 },
        Point { x: 3000, y: 0 },
        Point { x: 3000, y: 4000 },
    ]);
    assert_eq!(nearest_neighbor(&map), 7000);
}

#[test]
fn branch_and_bound_matches_the_brute_force_optimum() {
    let map = square_map();
    let mut c = Counter::new();
    let bnb = branch_and_bound(&map, &mut c);
    assert_eq!(bnb, 3000);
    assert!(c.value() > 0);
}

#[test]
fn branch_and_bound_matches_brute_force_on_irregular_points() {
    let pts = vec![
        Point { x: 0, y: 0 },
        Point { x: 500, y: 100 },
        Point { x: 900, y: 800 },
        Point { x: 200, y: 700 },
        Point { x: 650, y: 350 },
    ];
    let map = PointMap::from_points(pts.clone());
    let nn = nearest_neighbor(&map);
    let mut c = Counter::disabled();
    let bnb = branch_and_bound(&map, &mut c);
    assert!(bnb <= nn);
    let mut c2 = Counter::disabled();
    let (_, best) = brute_force(&PointMap::from_points(pts), &mut c2);
    assert_eq!(bnb, best);
}

#[test]
fn random_draws_stay_in_range() {
    for _ in 0..200 {
        assert!(rand_index(7) < 7);
        assert!(rand_below(3) < 3);
    }
}
