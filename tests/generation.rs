use rand::rngs::{SmallRng, StdRng};
use rand::{Rng, SeedableRng};
use vrptw::geometry::{distance_matrix_of, euclidean_distance, find_nearest_cluster};
use vrptw::instance::{max_total_distance_for, Challenge, Difficulty, Solution, SolutionError};
use vrptw::generation::{start_instance, GenerationError};
use vrptw::placement::{draw_point, draw_seed_count, Placement};
use vrptw::routes::{calc_baseline_routes, calc_routes_total_distance};
use vrptw::windows::{clustered_due_date, depot_due_date, due_range, ready_time};

fn stream(seed: [u8; 32]) -> SmallRng {
    SmallRng::from_seed(StdRng::from_seed(seed).gen())
}

fn placed(num_nodes: usize, rng: &mut SmallRng) -> Placement {
    let k = draw_seed_count(num_nodes - 1, rng);
    let mut p = Placement::new(num_nodes, k);
    while p.needs_seed() {
        let c = draw_point(rng);
        p.offer_seed(c);
    }
    while p.needs_clustered() {
        let c = draw_point(rng);
        if p.claim(c) {
            p.add_claimed();
        }
    }
    while p.needs_unclustered() {
        let c = draw_point(rng);
        p.offer_unclustered(c);
    }
    p
}

fn build(seed: [u8; 32], num_nodes: usize, better_than_baseline: u32) -> Challenge {
    let mut rng = stream(seed);
    let p = placed(num_nodes, &mut rng);
    let d = Difficulty { num_nodes, better_than_baseline };
    Challenge::from_placement(seed, d, &p, &mut rng)
}

#[test]
fn rounded_distances() {
    assert_eq!(euclidean_distance((0, 0), (3, 4)), 5);
    assert_eq!(euclidean_distance((0, 0), (1, 1)), 1);
    assert_eq!(euclidean_distance((0, 0), (1, 2)), 2);
    assert_eq!(euclidean_distance((0, 0), (2, 2)), 3);
    assert_eq!(euclidean_distance((500, 500), (500, 500)), 0);
    assert_eq!(euclidean_distance((0, 0), (999, 999)), 1413);
    assert_eq!(euclidean_distance((500, 500), (0, 0)), 707);
    assert_eq!(euclidean_distance((10, 0), (0, 0)), 10);
}

#[test]
fn rounded_distances_match_floating_point() {
    for x in 0..60 {
        for y in 0..60 {
            let want = ((x * x + y * y) as f64).sqrt().round() as i32;
            assert_eq!(euclidean_distance((0, 0), (x, y)), want);
        }
    }
}

#[test]
fn nearest_cluster_prefers_lowest_index_on_ties() {
    let seeds = vec![(10, 0), (0, 10), (5, 5)];
    assert_eq!(find_nearest_cluster((0, 0), &seeds), 2);
    assert_eq!(find_nearest_cluster((10, 10), &vec![(0, 10), (10, 0)]), 0);
    assert_eq!(find_nearest_cluster((10, 10), &vec![]), -1);
}

#[test]
fn matrix_is_symmetric_with_zero_diagonal() {
    let pos = vec![(500, 500), (0, 0), (3, 4), (999, 1)];
    let m = distance_matrix_of(&pos);
    assert_eq!(m[1][2], 5);
    for i in 0..4 {
        assert_eq!(m[i][i], 0);
        for j in 0..4 {
            assert_eq!(m[i][j], m[j][i]);
        }
    }
}

#[test]
fn bound_formula() {
    assert_eq!(max_total_distance_for(1000, 0), 1000);
    assert_eq!(max_total_distance_for(1000, 250), 750);
    assert_eq!(max_total_distance_for(999, 1), 998);
    assert_eq!(max_total_distance_for(29, 100), 26);
    assert_eq!(max_total_distance_for(12345, 1000), 0);
}

#[test]
fn bound_is_non_increasing_in_difficulty() {
    let mut last = i64::MAX;
    for b in 0..=1000u32 {
        let m = max_total_distance_for(4321, b);
        assert!(m <= last);
        last = m;
    }
}

#[test]
fn horizon_formula() {
    // 700 + 140.35 * 200 / 20 = 2103.5, rounded up.
    assert_eq!(depot_due_date(700, 200, 10), 2104);
    // 0 + 140.35 * 200 / 35 = 802.0
    assert_eq!(depot_due_date(0, 35, 1), 802);
    // 10 + 28070 = 28080
    assert_eq!(depot_due_date(10, 4, 4), 28080);
}

#[test]
fn due_ranges() {
    assert_eq!(due_range(100, 1000), (100, 890));
    assert_eq!(due_range(500, 1000), (500, 501));
    assert_eq!(due_range(495, 1000), (495, 496));
    assert_eq!(due_range(494, 1000), (494, 496));
}

#[test]
fn clustered_due_dates() {
    assert_eq!(clustered_due_date(100, 201, 0, 1000), 150);
    assert_eq!(clustered_due_date(100, 20, 80, 1000), 80);
    assert_eq!(clustered_due_date(900, 1000, 0, 920), 920);
}

#[test]
fn ready_times() {
    assert_eq!(ready_time(100, 30), 70);
    assert_eq!(ready_time(20, 30), 0);
    assert_eq!(ready_time(30, 30), 0);
}

#[test]
fn same_seed_gives_same_instance() {
    let a = build([7u8; 32], 40, 100);
    let b = build([7u8; 32], 40, 100);
    assert_eq!(a.demands, b.demands);
    assert_eq!(a.distance_matrix, b.distance_matrix);
    assert_eq!(a.ready_times, b.ready_times);
    assert_eq!(a.due_dates, b.due_dates);
    assert_eq!(a.max_total_distance, b.max_total_distance);
}

#[test]
fn generated_instance_invariants() {
    for (s, n) in [(1u8, 2usize), (2, 3), (3, 10), (4, 51), (5, 120)] {
        let c = build([s; 32], n, 0);
        assert_eq!(c.demands.len(), n);
        assert_eq!(c.demands[0], 0);
        assert_eq!(c.ready_times[0], 0);
        for i in 0..n {
            assert!(c.ready_times[i] >= 0 && c.ready_times[i] <= c.due_dates[i]);
            assert_eq!(c.distance_matrix[i][i], 0);
            for j in 0..n {
                assert_eq!(c.distance_matrix[i][j], c.distance_matrix[j][i]);
            }
        }
        for i in 1..n {
            assert!(c.demands[i] >= 1 && c.demands[i] <= 35);
            assert!(c.due_dates[i] >= c.distance_matrix[0][i]);
        }
        let tightened = (1..n).filter(|&i| c.ready_times[i] > 0).count();
        assert!(tightened <= n / 2);
    }
}

#[test]
fn baseline_meets_the_bound_at_zero_difficulty() {
    let c = build([9u8; 32], 60, 0);
    let routes = calc_baseline_routes(60, c.max_capacity, &c.demands, &c.distance_matrix).unwrap();
    let total =
        calc_routes_total_distance(60, c.max_capacity, &c.demands, &c.distance_matrix, &routes)
            .unwrap();
    assert_eq!(c.max_total_distance, total);
    assert_eq!(c.max_num_vehicles, routes.len());
    assert_eq!(c.verify_solution(&Solution { routes }), Ok(()));
}

#[test]
fn full_difficulty_bound_is_zero() {
    let c = build([11u8; 32], 30, 1000);
    assert_eq!(c.max_total_distance, 0);
    let routes = calc_baseline_routes(30, c.max_capacity, &c.demands, &c.distance_matrix).unwrap();
    let r = c.verify_solution(&Solution { routes });
    assert!(matches!(r, Err(SolutionError::TooLong { max_total_distance: 0, .. })));
}

#[test]
fn tighter_difficulty_gives_smaller_bound() {
    let easy = build([13u8; 32], 50, 0);
    let hard = build([13u8; 32], 50, 200);
    assert_eq!(easy.distance_matrix, hard.distance_matrix);
    assert_eq!(hard.max_total_distance, easy.max_total_distance * 800 / 1000);
}

#[test]
fn placement_keeps_points_distinct() {
    let mut rng = stream([21u8; 32]);
    let p = placed(200, &mut rng);
    assert_eq!(p.positions.len(), 200);
    assert_eq!(p.positions[0], (500, 500));
    for i in 0..p.positions.len() {
        for j in (i + 1)..p.positions.len() {
            assert_ne!(p.positions[i], p.positions[j]);
        }
    }
    for s in 0..p.seeds.len() {
        assert_eq!(p.positions[s + 1], p.seeds[s]);
        assert_eq!(p.clusters[s + 1], s as i32);
    }
}

#[test]
fn a_drawn_point_cannot_be_offered_twice() {
    let mut p = Placement::new(5, 1);
    assert!(p.offer_seed((1, 1)));
    assert!(!p.offer_unclustered((1, 1)));
    assert!(!p.offer_unclustered((500, 500)));
    assert!(p.claim((2, 2)));
    assert!(!p.claim((2, 2)));
    assert!(p.offer_unclustered((3, 3)));
    assert_eq!(p.positions, vec![(500, 500), (1, 1), (3, 3)]);
}

#[test]
fn start_instance_rejects_bad_difficulties() {
    let d = |num_nodes, better_than_baseline| Difficulty { num_nodes, better_than_baseline };
    assert_eq!(start_instance([0u8; 32], d(0, 0)).err(), Some(GenerationError::TooFewNodes));
    assert_eq!(start_instance([0u8; 32], d(1, 0)).err(), Some(GenerationError::TooFewNodes));
    assert_eq!(
        start_instance([0u8; 32], d(10, 1001)).err(),
        Some(GenerationError::DifficultyOutOfRange)
    );
    assert_eq!(
        start_instance([0u8; 32], d(0x8000_0000, 0)).err(),
        Some(GenerationError::TooManyNodes)
    );
}

#[test]
fn start_instance_places_the_depot_and_picks_a_seed_count() {
    let (_, p) = start_instance([3u8; 32], Difficulty { num_nodes: 100, better_than_baseline: 0 })
        .ok()
        .unwrap();
    assert_eq!(p.positions, vec![(500, 500)]);
    assert!(p.num_seeds >= 3 && p.num_seeds <= 8);
    let (_, q) = start_instance([3u8; 32], Difficulty { num_nodes: 3, better_than_baseline: 0 })
        .ok()
        .unwrap();
    assert_eq!(q.num_seeds, 1);
}

#[test]
fn seeded_streams_repeat() {
    let (mut a, _) = start_instance([5u8; 32], Difficulty { num_nodes: 20, better_than_baseline: 0 })
        .ok()
        .unwrap();
    let (mut b, _) = start_instance([5u8; 32], Difficulty { num_nodes: 20, better_than_baseline: 0 })
        .ok()
        .unwrap();
    for _ in 0..100 {
        assert_eq!(draw_point(&mut a), draw_point(&mut b));
    }
}

#[test]
fn tightened_windows_fall_on_shuffled_customers() {
    let c = build([17u8; 32], 81, 0);
    let late = (41..81).filter(|&i| c.ready_times[i] > 0).count();
    let early = (1..41).filter(|&i| c.ready_times[i] > 0).count();
    assert!(late > 0);
    assert!(early < 40);
}

#[test]
fn demands_and_due_dates_vary() {
    let c = build([19u8; 32], 80, 0);
    let first = c.demands[1];
    assert!((2..80).any(|i| c.demands[i] != first));
    let due = c.due_dates[1];
    assert!((2..80).any(|i| c.due_dates[i] != due));
    assert!(c.due_dates[0] > 700);
}
