use tsp_ga::ga::{
    loss_vector, offspring_target, KPoint, Recombinator, RouletteWheelSelection, Settings,
    Uniform, PROB_DENOM,
};
use tsp_ga::genome::{Chromosome, RandomKeyPath, RemovalIndex, SwapPath};
use tsp_ga::map::{Point, PointMap};

fn square_map() -> PointMap {
    PointMap::from_points(vec![
        Point { x: 0, y: 0 },
        Point { x: 1000, y: 0 },
        Point { x: 1000, y: 1000 },
        Point { x: 0, y: 1000 },
    ])
}

fn key_genome(keys: Vec<u64>) -> Chromosome {
    Chromosome::Key(RandomKeyPath::from_keys(keys))
}

fn settings() -> Settings {
    Settings {
        replace_percent: PROB_DENOM,
        elitist_percent: PROB_DENOM / 4,
        crossover_prob: 9 * PROB_DENOM / 10,
        mutate_prob: PROB_DENOM / 20,
    }
}

#[test]
fn offspring_target_floor_applies() {
    // replace 0.1, elitist 0.05, n = 4: floor((0.05) * 4) = 0, floored to 1.
    let s = Settings {
        replace_percent: PROB_DENOM / 10,
        elitist_percent: PROB_DENOM / 20,
        crossover_prob: 0,
        mutate_prob: 0,
    };
    assert_eq!(offspring_target(&s, 4), 1);
}

#[test]
fn offspring_target_unfloored_case() {
    // replace 1.0, elitist 0.25, n = 8: floor(0.75 * 8) = 6.
    let s = Settings {
        replace_percent: PROB_DENOM,
        elitist_percent: PROB_DENOM / 4,
        crossover_prob: 0,
        mutate_prob: 0,
    };
    assert_eq!(offspring_target(&s, 8), 6);
}

#[test]
fn offspring_target_negative_difference_floors_to_one() {
    let s = Settings {
        replace_percent: PROB_DENOM / 20,
        elitist_percent: PROB_DENOM / 10,
        crossover_prob: 0,
        mutate_prob: 0,
    };
    assert_eq!(offspring_target(&s, 100), 1);
}

#[test]
fn evolve_preserves_population_size() {
    let map = square_map();
    let mut population = vec![
        key_genome(vec![10, 20, 30, 40]),
        key_genome(vec![40, 30, 20, 10]),
        key_genome(vec![10, 30, 20, 40]),
        key_genome(vec![20, 10, 40, 30]),
    ];
    let recomb = Recombinator::Uniform(Uniform::new());
    for _ in 0..20 {
        let n = population.len();
        RouletteWheelSelection::evolve(&settings(), &map, &mut population, &recomb, true);
        assert_eq!(population.len(), n);
    }
}

#[test]
fn evolve_with_elitism_keeps_the_best_loss() {
    // Distinct losses; the best genome sits at the end, so only a real
    // loss-ascending sort protects it from the positional trim.
    let map = square_map();
    let mut population = vec![
        key_genome(vec![10, 30, 20, 40]), // crossed: 4828
        key_genome(vec![30, 10, 20, 40]), // 4828
        key_genome(vec![20, 10, 30, 40]), // 4000 rotated start
        key_genome(vec![10, 20, 30, 40]), // perimeter: 4000
    ];
    let mut best_before = u64::MAX;
    for g in population.iter() {
        let l = g.evaluate(&map);
        if l < best_before {
            best_before = l;
        }
    }
    let recomb = Recombinator::KPoint(KPoint::new(3));
    for _ in 0..10 {
        let r = RouletteWheelSelection::evolve(&settings(), &map, &mut population, &recomb,
            false);
        assert!(r <= best_before);
        let best_after = population.iter().map(|g| g.evaluate(&map)).min().unwrap();
        assert!(best_after <= best_before);
        best_before = best_after;
    }
}

#[test]
fn evolve_returns_a_lower_bound_of_the_survivors() {
    let map = square_map();
    let mut population = vec![
        key_genome(vec![10, 30, 20, 40]),
        key_genome(vec![10, 20, 30, 40]),
    ];
    let recomb = Recombinator::Uniform(Uniform::weighted(250_000));
    let r = RouletteWheelSelection::evolve(&settings(), &map, &mut population, &recomb, false);
    for g in population.iter() {
        assert!(r <= g.evaluate(&map));
    }
}

#[test]
fn selection_weights_sum_to_one_and_stay_in_bounds() {
    // Ten genomes with positive losses: every loss-proportional weight
    // lies in (0, 1) and the weight vector sums to 1.
    let map = square_map();
    let mut population: Vec<Chromosome> = Vec::new();
    for i in 0..10u64 {
        population.push(key_genome(vec![10 + i, 20, 30, 40 + i]));
    }
    let losses = loss_vector(&population, &map);
    assert_eq!(losses.len(), 10);
    let sum: u64 = losses.iter().sum();
    assert!(sum > 0);
    let mut weight_sum = 0.0f64;
    for l in losses.iter() {
        let w = *l as f64 / sum as f64;
        assert!(w > 0.0 && w < 1.0);
        weight_sum += w;
    }
    assert!((weight_sum - 1.0).abs() < 1e-9);
}

#[test]
fn single_segment_kpoint_is_a_suffix_swap() {
    // count = 1 must always take the single-cut-point branch: the result
    // is a suffix exchange at some cut.
    let recomb = Recombinator::KPoint(KPoint::new(1));
    for _ in 0..30 {
        let mut a = key_genome(vec![1, 2, 3, 4, 5, 6]);
        let mut b = key_genome(vec![11, 12, 13, 14, 15, 16]);
        recomb.recombine(&mut a, &mut b);
        let (ka, kb) = match (&a, &b) {
            (Chromosome::Key(x), Chromosome::Key(y)) => {
                let ka: Vec<u64> = (0..6).map(|i| x.key_at(i)).collect();
                let kb: Vec<u64> = (0..6).map(|i| y.key_at(i)).collect();
                (ka, kb)
            }
            _ => panic!("encoding changed"),
        };
        let mut found = false;
        for cut in 0..=6usize {
            let ok = (0..6).all(|i| {
                if i < cut {
                    ka[i] == (i + 1) as u64 && kb[i] == (i + 11) as u64
                } else {
                    ka[i] == (i + 11) as u64 && kb[i] == (i + 1) as u64
                }
            });
            if ok {
                found = true;
            }
        }
        assert!(found, "not a suffix exchange: {:?} {:?}", ka, kb);
    }
}

#[test]
fn recombination_only_exchanges_positions() {
    // Both strategies: each position either keeps its pair of genes or
    // exchanges it; nothing is lost or invented.
    let strategies = vec![
        Recombinator::KPoint(KPoint::new(4)),
        Recombinator::Uniform(Uniform::weighted(300_000)),
    ];
    for recomb in strategies.iter() {
        for _ in 0..20 {
            let mut a = key_genome(vec![1, 2, 3, 4, 5, 6, 7]);
            let mut b = key_genome(vec![11, 12, 13, 14, 15, 16, 17]);
            recomb.recombine(&mut a, &mut b);
            match (&a, &b) {
                (Chromosome::Key(x), Chromosome::Key(y)) => {
                    for i in 0..7usize {
                        let (ka, kb) = (x.key_at(i), y.key_at(i));
                        let (oa, ob) = ((i + 1) as u64, (i + 11) as u64);
                        assert!((ka == oa && kb == ob) || (ka == ob && kb == oa));
                    }
                }
                _ => panic!("encoding changed"),
            }
        }
    }
}

#[test]
fn evolve_runs_on_the_other_encodings() {
    let map = square_map();
    let recomb = Recombinator::Uniform(Uniform::new());

    let mut ranks: Vec<Chromosome> = (0..6)
        .map(|_| Chromosome::Rank(RemovalIndex::new(&map)))
        .collect();
    for _ in 0..5 {
        let r = RouletteWheelSelection::evolve(&settings(), &map, &mut ranks, &recomb, false);
        assert_eq!(ranks.len(), 6);
        for g in ranks.iter() {
            assert!(r <= g.evaluate(&map));
        }
    }

    let mut swaps: Vec<Chromosome> = (0..6)
        .map(|_| Chromosome::Swap(SwapPath::new(&map, 4)))
        .collect();
    for _ in 0..5 {
        let r = RouletteWheelSelection::evolve(&settings(), &map, &mut swaps, &recomb, false);
        assert_eq!(swaps.len(), 6);
        for g in swaps.iter() {
            assert!(r <= g.evaluate(&map));
        }
    }
}
