use tsp_ga::genome::{Chromosome, RandomKeyPath, RemovalIndex, SwapPath};
use tsp_ga::map::{Point, PointMap};

fn square_points() -> Vec<Point> {
    vec![
        Point { x: 0, y: 0 },
        Point { x: 1000, y: 0 },
        Point { x: 1000, y: 1000 },
        Point { x: 0, y: 1000 },
    ]
}

fn square_map() -> PointMap {
    PointMap::from_points(square_points())
}

fn key_genome(keys: Vec<u64>) -> RandomKeyPath {
    RandomKeyPath::from_keys(keys)
}

#[test]
fn unit_square_optimal_tour_is_4000() {
    // The perimeter tour of the scaled unit square has length 4 * 1000.
    let map = square_map();
    let g = key_genome(vec![10, 20, 30, 40]);
    assert_eq!(g.evaluate(&map), 4000);
}

#[test]
fn unit_square_crossed_tour_is_4828() {
    // The crossed order (0, 2, 1, 3) costs 2 * isqrt(2_000_000) + 2 * 1000.
    let map = square_map();
    let g = key_genome(vec![10, 30, 20, 40]);
    assert_eq!(g.evaluate(&map), 1414 + 1000 + 1414 + 1000);
}

#[test]
fn unit_square_repair_reaches_4000() {
    // Repair must untangle the crossed key assignment down to the optimum.
    let map = square_map();
    let mut g = key_genome(vec![10, 30, 20, 40]);
    assert_eq!(g.evaluate(&map), 4828);
    g.fix(&map);
    assert_eq!(g.evaluate(&map), 4000);
}

#[test]
fn repair_leaves_locally_optimal_genome_unchanged() {
    // Collinear points visited in order: no width-4 window improves and
    // neither boundary check fires, so repair must not touch the keys.
    let pts = vec![
        Point { x: 0, y: 0 },
        Point { x: 100, y: 0 },
        Point { x: 200, y: 0 },
        Point { x: 300, y: 0 },
        Point { x: 400, y: 0 },
        Point { x: 500, y: 0 },
        Point { x: 600, y: 0 },
    ];
    let map = PointMap::from_points(pts);
    let keys: Vec<u64> = vec![10, 20, 30, 40, 50, 60, 70];
    let mut g = key_genome(keys.clone());
    let before = g.evaluate(&map);
    g.fix(&map);
    for (i, k) in keys.iter().enumerate() {
        assert_eq!(g.key_at(i), *k);
    }
    assert_eq!(g.evaluate(&map), before);
}

#[test]
fn repair_keeps_key_multiset() {
    let map = square_map();
    let mut g = key_genome(vec![40, 30, 20, 10]);
    g.fix(&map);
    let mut seen: Vec<u64> = (0..4).map(|i| g.key_at(i)).collect();
    seen.sort();
    assert_eq!(seen, vec![10, 20, 30, 40]);
}

#[test]
fn key_crossover_is_involution() {
    let mut a = key_genome(vec![1, 2, 3, 4, 5]);
    let mut b = key_genome(vec![9, 8, 7, 6, 5]);
    a.crossover(&mut b, 1, 4);
    assert_eq!(a.key_at(1), 8);
    a.crossover(&mut b, 1, 4);
    for i in 0..5 {
        assert_eq!(a.key_at(i), (i + 1) as u64);
        assert_eq!(b.key_at(i), (9 - i) as u64);
    }
}

#[test]
fn rank_crossover_is_involution() {
    let map = square_map();
    let mut a = RemovalIndex::in_order(&map);
    let mut b = RemovalIndex::new(&map);
    let before_a: Vec<usize> = (0..a.len()).map(|i| a.locus(i)).collect();
    let before_b: Vec<usize> = (0..b.len()).map(|i| b.locus(i)).collect();
    a.crossover(&mut b, 0, 2);
    a.crossover(&mut b, 0, 2);
    for i in 0..a.len() {
        assert_eq!(a.locus(i), before_a[i]);
        assert_eq!(b.locus(i), before_b[i]);
    }
}

#[test]
fn swap_crossover_is_involution() {
    let map = square_map();
    let mut a = SwapPath::new(&map, 3);
    let mut b = SwapPath::new(&map, 3);
    let before_a: Vec<usize> = (0..a.len()).map(|i| a.swap_at(i)).collect();
    let before_b: Vec<usize> = (0..b.len()).map(|i| b.swap_at(i)).collect();
    a.crossover(&mut b, 2, 5);
    a.crossover(&mut b, 2, 5);
    for i in 0..a.len() {
        assert_eq!(a.swap_at(i), before_a[i]);
        assert_eq!(b.swap_at(i), before_b[i]);
    }
}

#[test]
fn rank_decode_matches_reorder() {
    // Decode/evaluate consistency for the deletion-rank encoding: the loss
    // equals the open cost over the reordered map (the closing edge to the
    // remaining point is the final consecutive edge).
    let map = square_map();
    let g = RemovalIndex::new(&map);
    let loss = g.evaluate(&map);
    let mut reordered = PointMap::from_points(square_points());
    g.reorder(&mut reordered);
    let pts = reordered.clone_to_vec();
    let mut total = 0u64;
    for i in 0..pts.len() - 1 {
        total += pts[i].dist(&pts[i + 1]);
    }
    assert_eq!(loss, total);
}

#[test]
fn key_decode_matches_reorder() {
    // Decode/evaluate consistency for the random-key encoding: the loss is
    // the closed-cycle cost over the reordered map.
    let map = square_map();
    let g = key_genome(vec![12, 99, 5, 40]);
    let loss = g.evaluate(&map);
    let mut reordered = PointMap::from_points(square_points());
    g.reorder(&mut reordered);
    let pts = reordered.clone_to_vec();
    let mut total = 0u64;
    for i in 0..pts.len() - 1 {
        total += pts[i].dist(&pts[i + 1]);
    }
    total += pts[pts.len() - 1].dist(&pts[0]);
    assert_eq!(loss, total);
}

#[test]
fn swap_decode_matches_reorder() {
    // Decode/evaluate consistency for the transposition encoding: the loss
    // is the open cost over the reordered map, with no closing edge.
    let map = square_map();
    let g = SwapPath::new(&map, 2);
    let loss = g.evaluate(&map);
    let mut reordered = PointMap::from_points(square_points());
    g.reorder(&mut reordered);
    let pts = reordered.clone_to_vec();
    let mut total = 0u64;
    for i in 0..pts.len() - 1 {
        total += pts[i].dist(&pts[i + 1]);
    }
    assert_eq!(loss, total);
}

#[test]
fn rank_new_respects_shrinking_domains() {
    let map = square_map();
    for _ in 0..50 {
        let g = RemovalIndex::new(&map);
        assert_eq!(g.len() + 1, map.size());
        for i in 0..g.len() {
            assert!(g.locus(i) + i < g.len());
        }
    }
}

#[test]
fn rank_mutation_respects_shrinking_domains() {
    let map = square_map();
    let mut g = RemovalIndex::in_order(&map);
    for _ in 0..50 {
        for i in 0..g.len() {
            g.point_mutation(i);
            assert!(g.locus(i) + i < g.len());
        }
    }
}

#[test]
fn swap_new_respects_map_size() {
    let map = square_map();
    let g = SwapPath::new(&map, 5);
    assert_eq!(g.len(), 10);
    assert_eq!(g.map_size(), 4);
    for i in 0..g.len() {
        assert!(g.swap_at(i) < 4);
    }
}

#[test]
fn enum_genomes_share_the_operations() {
    let map = square_map();
    let mut a = Chromosome::Key(key_genome(vec![10, 20, 30, 40]));
    let mut b = Chromosome::Key(key_genome(vec![40, 30, 20, 10]));
    assert_eq!(a.len(), 4);
    assert_eq!(a.evaluate(&map), 4000);
    a.crossover(&mut b, 0, 4);
    assert_eq!(b.evaluate(&map), 4000);
    let c = a.duplicate();
    assert_eq!(c.evaluate(&map), a.evaluate(&map));
}

#[test]
fn repair_never_lengthens_the_open_path_for_distinct_keys() {
    // The repair contract promises the decoded open-path length never
    // grows when all keys are distinct; the closing edge may shift.
    let pts = vec![
        Point { x: 0, y: 0 },
        Point { x: 900, y: 120 },
        Point { x: 300, y: 750 },
        Point { x: 610, y: 340 },
        Point { x: 120, y: 980 },
        Point { x: 870, y: 660 },
        Point { x: 450, y: 90 },
    ];
    let open_len = |g: &RandomKeyPath| -> u64 {
        let mut m = PointMap::from_points(vec![
            Point { x: 0, y: 0 },
            Point { x: 900, y: 120 },
            Point { x: 300, y: 750 },
            Point { x: 610, y: 340 },
            Point { x: 120, y: 980 },
            Point { x: 870, y: 660 },
            Point { x: 450, y: 90 },
        ]);
        g.reorder(&mut m);
        let ordered = m.clone_to_vec();
        let mut total = 0u64;
        for i in 0..ordered.len() - 1 {
            total += ordered[i].dist(&ordered[i + 1]);
        }
        total
    };
    let map = PointMap::from_points(pts);
    let mut g = key_genome(vec![70, 10, 50, 30, 60, 20, 40]);
    let before = open_len(&g);
    g.fix(&map);
    let after = open_len(&g);
    assert!(after <= before);
}
