use vrptw::instance::{Challenge, Difficulty, Solution, SolutionError};
use vrptw::routes::{calc_baseline_routes, calc_routes_total_distance, RouteError};

fn small_matrix() -> Vec<Vec<i32>> {
    vec![
        vec![0, 5, 8, 6],
        vec![5, 0, 4, 7],
        vec![8, 4, 0, 3],
        vec![6, 7, 3, 0],
    ]
}

fn small_instance(max_total_distance: i64) -> Challenge {
    Challenge {
        seed: [0u8; 32],
        difficulty: Difficulty { num_nodes: 4, better_than_baseline: 0 },
        demands: vec![0, 10, 20, 15],
        distance_matrix: small_matrix(),
        ready_times: vec![0, 0, 0, 0],
        due_dates: vec![100, 50, 50, 50],
        service_time: 10,
        max_total_distance,
        max_capacity: 30,
        max_num_vehicles: 2,
    }
}

fn solution(routes: Vec<Vec<usize>>) -> Solution {
    Solution { routes }
}

#[test]
fn feasible_solution_within_bound_is_accepted() {
    let s = solution(vec![vec![0, 1, 2, 0], vec![0, 3, 0]]);
    assert_eq!(small_instance(29).verify_solution(&s), Ok(()));
    assert_eq!(small_instance(40).verify_solution(&s), Ok(()));
}

#[test]
fn feasible_solution_over_bound_reports_both_values() {
    let s = solution(vec![vec![0, 1, 2, 0], vec![0, 3, 0]]);
    assert_eq!(
        small_instance(28).verify_solution(&s),
        Err(SolutionError::TooLong { total_distance: 29, max_total_distance: 28 })
    );
}

#[test]
fn total_distance_of_scenario_is_29() {
    let routes = vec![vec![0, 1, 2, 0], vec![0, 3, 0]];
    let r = calc_routes_total_distance(4, 30, &vec![0, 10, 20, 15], &small_matrix(), &routes);
    assert_eq!(r, Ok(29));
}

#[test]
fn repeated_node_is_rejected() {
    let s = solution(vec![vec![0, 1, 0], vec![0, 1, 2, 0]]);
    assert_eq!(
        small_instance(1000).verify_solution(&s),
        Err(SolutionError::Infeasible(RouteError::RepeatedVisit))
    );
}

#[test]
fn over_capacity_route_is_rejected() {
    let s = solution(vec![vec![0, 1, 2, 3, 0]]);
    assert_eq!(
        small_instance(1000).verify_solution(&s),
        Err(SolutionError::Infeasible(RouteError::CapacityExceeded))
    );
}

#[test]
fn capacity_is_checked_at_every_prefix() {
    // 20 + 15 exceeds 30 at the second customer of the first route.
    let s = solution(vec![vec![0, 2, 3, 0], vec![0, 1, 0]]);
    assert_eq!(
        small_instance(1000).verify_solution(&s),
        Err(SolutionError::Infeasible(RouteError::CapacityExceeded))
    );
}

#[test]
fn uncovered_nodes_are_rejected() {
    let s = solution(vec![vec![0, 1, 0]]);
    assert_eq!(
        small_instance(1000).verify_solution(&s),
        Err(SolutionError::Infeasible(RouteError::UnvisitedNode))
    );
}

#[test]
fn malformed_routes_are_rejected() {
    for routes in [
        vec![vec![0, 0]],
        vec![vec![1, 2, 0], vec![0, 3, 0]],
        vec![vec![0, 1, 2], vec![0, 3, 0]],
        vec![vec![0]],
        vec![vec![]],
    ] {
        assert_eq!(
            small_instance(1000).verify_solution(&solution(routes)),
            Err(SolutionError::Infeasible(RouteError::MalformedRoute))
        );
    }
}

#[test]
fn unknown_node_is_rejected() {
    let s = solution(vec![vec![0, 1, 2, 0], vec![0, 3, 9, 0]]);
    assert_eq!(
        small_instance(1000).verify_solution(&s),
        Err(SolutionError::Infeasible(RouteError::UnknownNode))
    );
}

#[test]
fn depot_inside_a_route_counts_as_a_repeat() {
    let s = solution(vec![vec![0, 1, 0, 2, 0], vec![0, 3, 0]]);
    assert_eq!(
        small_instance(1000).verify_solution(&s),
        Err(SolutionError::Infeasible(RouteError::RepeatedVisit))
    );
}

#[test]
fn empty_solution_leaves_nodes_unvisited() {
    assert_eq!(
        small_instance(1000).verify_solution(&solution(vec![])),
        Err(SolutionError::Infeasible(RouteError::UnvisitedNode))
    );
}

#[test]
fn first_violation_in_route_order_is_reported() {
    let s = solution(vec![vec![0, 1, 0, 0], vec![0, 1, 0]]);
    assert_eq!(
        small_instance(1000).verify_solution(&s),
        Err(SolutionError::Infeasible(RouteError::RepeatedVisit))
    );
}

#[test]
fn baseline_routes_are_greedy_and_feasible() {
    let demands = vec![0, 10, 20, 15];
    let routes = calc_baseline_routes(4, 30, &demands, &small_matrix()).unwrap();
    // From the depot node 1 is nearest (5); then node 2 (4) fits 20 of the
    // remaining 20; the second vehicle takes node 3.
    assert_eq!(routes, vec![vec![0, 1, 2, 0], vec![0, 3, 0]]);
    assert_eq!(calc_routes_total_distance(4, 30, &demands, &small_matrix(), &routes), Ok(29));
}

#[test]
fn baseline_breaks_distance_ties_by_lowest_index() {
    let matrix = vec![
        vec![0, 7, 7, 7],
        vec![7, 0, 1, 1],
        vec![7, 1, 0, 1],
        vec![7, 1, 1, 0],
    ];
    let routes = calc_baseline_routes(4, 200, &vec![0, 1, 1, 1], &matrix).unwrap();
    assert_eq!(routes, vec![vec![0, 1, 2, 3, 0]]);
}

#[test]
fn baseline_skips_nodes_that_do_not_fit() {
    let routes = calc_baseline_routes(4, 30, &vec![0, 25, 20, 5], &small_matrix()).unwrap();
    assert_eq!(routes, vec![vec![0, 1, 3, 0], vec![0, 2, 0]]);
}

#[test]
fn baseline_for_depot_and_one_customer() {
    let matrix = vec![vec![0, 3], vec![3, 0]];
    let routes = calc_baseline_routes(2, 200, &vec![0, 200], &matrix).unwrap();
    assert_eq!(routes, vec![vec![0, 1, 0]]);
    assert_eq!(calc_routes_total_distance(2, 200, &vec![0, 200], &matrix, &routes), Ok(6));
}

#[test]
fn difficulty_array_round_trip() {
    let d = Difficulty::from_arr(&[100, 250]);
    assert_eq!(d, Difficulty { num_nodes: 100, better_than_baseline: 250 });
    assert_eq!(d.to_arr(), [100, 250]);
}
