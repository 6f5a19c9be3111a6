//! Turning a finished placement into an instance: demands, time windows,
//! distances, the baseline and the distance bound.

use crate::draws::{draw_i32, shuffle_indices, stream_from_seed};
use crate::feasibility::greedy_routes;
use crate::geometry::{distance_matrix_of, euclidean_distance, grid_distance, on_grid, DEPOT_X, DEPOT_Y};
use crate::instance::{
    calibrated_bound,
    max_total_distance_for,
    Challenge,
    Difficulty,
    MAX_CAPACITY,
    PERMILLE,
    SERVICE_TIME,
};
use crate::placement::{depot, draw_seed_count, Placement, MAX_SEEDS, MIN_SEEDS};
use crate::routes::{
    calc_baseline_routes,
    calc_routes_total_distance,
    lemma_total_distance_nonnegative,
    total_distance_of,
};
use crate::windows::{
    clustered_due_date,
    depot_due_date,
    due_bounds,
    due_range,
    horizon,
    ready_time,
    MAX_DEMAND,
    MAX_WINDOW,
    MIN_WINDOW,
};
use rand::rngs::SmallRng;
use vstd::prelude::*;

verus! {

/// Sum of the demands of nodes `1..k`.
pub open spec fn demand_sum(demands: Seq<i32>, k: int) -> int
    decreases k,
{
    if k <= 1 {
        0
    } else {
        demand_sum(demands, k - 1) + demands[k - 1]
    }
}

/// Largest depot distance among nodes `1..k`, or zero.
pub open spec fn farthest(positions: Seq<(i32, i32)>, k: int) -> int
    decreases k,
{
    if k <= 1 {
        0
    } else {
        let d = grid_distance(depot(), positions[k - 1]);
        let rest = farthest(positions, k - 1);
        if d > rest {
            d
        } else {
            rest
        }
    }
}

/// The demands, time windows and distances of an instance fit the node
/// positions as generation makes them.
pub open spec fn windows_fit(c: &Challenge, positions: Seq<(i32, i32)>) -> bool {
    let n = positions.len();
    let d = c.distance_matrix@;
    &&& c.demands@.len() == n && c.due_dates@.len() == n && c.ready_times@.len() == n
    &&& c.demands@[0] == 0
    &&& forall|i: int| 1 <= i < n ==> 1 <= #[trigger] c.demands@[i] <= MAX_DEMAND
    &&& c.due_dates@[0] == horizon(farthest(positions, n as int), demand_sum(c.demands@, n as int), n - 1)
    &&& forall|i: int|
        1 <= i < n ==> due_bounds(grid_distance(depot(), positions[i]), c.due_dates@[0] as int).0
            <= #[trigger] c.due_dates@[i] <= due_bounds(
            grid_distance(depot(), positions[i]),
            c.due_dates@[0] as int,
        ).1
    &&& c.ready_times@[0] == 0
    &&& forall|i: int|
        0 <= i < n ==> 0 <= #[trigger] c.ready_times@[i] <= c.due_dates@[i]
            && (c.ready_times@[i] == 0 || c.due_dates@[i] - MAX_WINDOW <= c.ready_times@[i]
            <= c.due_dates@[i] - MIN_WINDOW)
    &&& d.len() == n
    &&& forall|i: int, j: int|
        0 <= i < n && 0 <= j < n ==> #[trigger] d[i]@[j] == grid_distance(positions[i], positions[j])
    &&& forall|i: int, j: int| 0 <= i < n && 0 <= j < n ==> #[trigger] d[i]@[j] == d[j]@[i]
    &&& forall|i: int| 0 <= i < n ==> #[trigger] d[i]@[i] == 0
}

/// Most nodes an instance can have: distances and node indices are `i32`.
pub const MAX_NODES: usize = 0x7fff_ffff;

/// Why an instance cannot be generated for a difficulty.
#[derive(Debug, Clone, Copy, PartialEq, Eq, Structural)]
pub enum GenerationError {
    /// Fewer than two nodes: there must be a depot and a customer.
    TooFewNodes,
    /// More than `MAX_NODES` nodes.
    TooManyNodes,
    /// `better_than_baseline` above one thousand permille.
    DifficultyOutOfRange,
}

/// Checks `difficulty`, seeds the draw stream from `seed`, draws the number
/// of cluster seeds, and places the depot.
pub fn start_instance(seed: [u8; 32], difficulty: Difficulty) -> (r: Result<(SmallRng, Placement), GenerationError>)
    ensures
        difficulty.num_nodes < 2 ==> r == Err::<(SmallRng, Placement), GenerationError>(
            GenerationError::TooFewNodes,
        ),
        difficulty.num_nodes > MAX_NODES ==> r == Err::<(SmallRng, Placement), GenerationError>(
            GenerationError::TooManyNodes,
        ),
        2 <= difficulty.num_nodes <= MAX_NODES && difficulty.better_than_baseline > PERMILLE ==> r
            == Err::<(SmallRng, Placement), GenerationError>(GenerationError::DifficultyOutOfRange),
        r is Ok <==> 2 <= difficulty.num_nodes <= MAX_NODES && difficulty.better_than_baseline
            <= PERMILLE,
        r matches Ok(started) ==> {
            let p = started.1;
            let n = difficulty.num_nodes - 1;
            let most: int = if n < MAX_SEEDS { n } else { MAX_SEEDS as int };
            &&& p.well_formed()
            &&& p.num_customers == n
            &&& p.positions@ == seq![depot()]
            &&& p.seeds@.len() == 0
            &&& p.pending_point() is None
            &&& if most >= MIN_SEEDS {
                MIN_SEEDS <= p.num_seeds <= most
            } else {
                p.num_seeds == 1
            }
        },
{
    if difficulty.num_nodes < 2 {
        return Err(GenerationError::TooFewNodes);
    }
    if difficulty.num_nodes > MAX_NODES {
        return Err(GenerationError::TooManyNodes);
    }
    if difficulty.better_than_baseline > PERMILLE {
        return Err(GenerationError::DifficultyOutOfRange);
    }
    let mut rng = stream_from_seed(seed);
    let num_seeds = draw_seed_count(difficulty.num_nodes - 1, &mut rng);
    let placement = Placement::new(difficulty.num_nodes, num_seeds);
    Ok((rng, placement))
}


impl Challenge {
    /// Completes an instance from a placement of all its nodes, drawing
    /// demands, due dates, and the ready times of half the customers (rounded
    /// to nearest) from `rng`. The bound is the total distance of the greedy
    /// baseline routes shortened by `better_than_baseline` permille, and the
    /// fleet size is the number of those routes.
    pub fn from_placement(
        seed: [u8; 32],
        difficulty: Difficulty,
        placement: &Placement,
        rng: &mut SmallRng,
    ) -> (r: Challenge)
        requires
            placement.well_formed(),
            placement.positions@.len() == placement.num_customers + 1,
            difficulty.num_nodes == placement.num_customers + 1,
            difficulty.better_than_baseline <= PERMILLE,
        ensures
            r.well_formed(),
            r.seed == seed,
            r.difficulty == difficulty,
            r.max_capacity == MAX_CAPACITY,
            r.service_time == SERVICE_TIME,
            windows_fit(&r, placement.positions@),
            exists|routes: Seq<Vec<usize>>|
                #![trigger total_distance_of(difficulty.num_nodes as int, MAX_CAPACITY as int, r.demands@, r.distance_matrix@, routes)]
                total_distance_of(
                    difficulty.num_nodes as int,
                    MAX_CAPACITY as int,
                    r.demands@,
                    r.distance_matrix@,
                    routes,
                ) is Ok && r.max_total_distance == calibrated_bound(
                    total_distance_of(
                        difficulty.num_nodes as int,
                        MAX_CAPACITY as int,
                        r.demands@,
                        r.distance_matrix@,
                        routes,
                    )->Ok_0,
                    difficulty.better_than_baseline as int,
                ) && r.max_num_vehicles == routes.len() && greedy_routes(
                    difficulty.num_nodes as int,
                    MAX_CAPACITY as int,
                    r.demands@,
                    r.distance_matrix@,
                    routes,
                ),
    {
        let ghost pos = placement.positions@;
        let n: usize = placement.num_customers;
        let num_nodes: usize = n + 1;
        let depot_pos: (i32, i32) = (DEPOT_X, DEPOT_Y);
        proof {
            assert(on_grid(depot_pos));
        }
        let mut demands: Vec<i32> = Vec::new();
        while demands.len() < num_nodes
            invariant
                demands@.len() <= num_nodes,
                forall|k: int| 0 <= k < demands@.len() ==> 1 <= #[trigger] demands@[k] <= MAX_DEMAND,
            decreases num_nodes - demands@.len(),
        {
            let d = draw_i32(rng, 1, MAX_DEMAND + 1);
            demands.push(d);
        }
        demands.set(0, 0);

        let mut total_demand: u64 = 0;
        let mut max_distance: i32 = 0;
        let mut i: usize = 1;
        while i < num_nodes
            invariant
                1 <= i <= num_nodes,
                num_nodes == pos.len(),
                num_nodes < 0x8000_0000,
                pos == placement.positions@,
                placement.layout(),
                demands@.len() == num_nodes,
                demands@[0] == 0,
                forall|k: int| 1 <= k < num_nodes ==> 1 <= #[trigger] demands@[k] <= MAX_DEMAND,
                total_demand == demand_sum(demands@, i as int),
                i - 1 <= total_demand <= 35 * (i - 1),
                max_distance == farthest(pos, i as int),
                0 <= max_distance <= 1415,
                depot_pos == depot(),
            decreases num_nodes - i,
        {
            total_demand = total_demand + demands[i] as u64;
            let d = euclidean_distance(depot_pos, placement.positions[i]);
            if d > max_distance {
                max_distance = d;
            }
            i = i + 1;
        }
        let due0 = depot_due_date(max_distance, total_demand, n as u64);

        let mut due_dates: Vec<i32> = Vec::new();
        let mut ready_times: Vec<i32> = Vec::new();
        due_dates.push(due0);
        ready_times.push(0);
        let mut i: usize = 1;
        while i < num_nodes
            invariant
                1 <= i <= num_nodes,
                num_nodes == pos.len(),
                pos == placement.positions@,
                placement.layout(),
                0 <= due0 <= 30000,
                depot_pos == depot(),
                due_dates@.len() == i,
                ready_times@.len() == i,
                due_dates@[0] == due0,
                forall|k: int| 0 <= k < i ==> #[trigger] ready_times@[k] == 0,
                forall|k: int| 0 <= k < i ==> 0 <= #[trigger] due_dates@[k],
                forall|k: int|
                    1 <= k < i ==> due_bounds(grid_distance(depot(), pos[k]), due0 as int).0
                        <= #[trigger] due_dates@[k] < due_bounds(grid_distance(depot(), pos[k]), due0 as int).1,
            decreases num_nodes - i,
        {
            let d = euclidean_distance(depot_pos, placement.positions[i]);
            let (lo, hi) = due_range(d, due0);
            let due = draw_i32(rng, lo, hi);
            due_dates.push(due);
            ready_times.push(0);
            i = i + 1;
        }

        let mut i: usize = 1;
        while i < num_nodes
            invariant
                1 <= i <= num_nodes,
                num_nodes == pos.len(),
                pos == placement.positions@,
                placement.layout(),
                0 <= due0 <= 30000,
                depot_pos == depot(),
                due_dates@.len() == num_nodes,
                due_dates@[0] == due0,
                forall|k: int| 0 <= k < num_nodes ==> 0 <= #[trigger] due_dates@[k],
                forall|k: int|
                    1 <= k < num_nodes ==> due_bounds(grid_distance(depot(), pos[k]), due0 as int).0
                        <= #[trigger] due_dates@[k] <= due_bounds(grid_distance(depot(), pos[k]), due0 as int).1,
            decreases num_nodes - i,
        {
            let c = placement.clusters[i];
            if c != -1 {
                let s: usize = (c + 1) as usize;
                let d = euclidean_distance(depot_pos, placement.positions[i]);
                let (lo, hi) = due_range(d, due0);
                let adjusted = clustered_due_date(due_dates[i], due_dates[s], lo, hi);
                due_dates.set(i, adjusted);
            }
            i = i + 1;
        }

        let mut order: Vec<usize> = Vec::new();
        let mut k: usize = 1;
        while k <= n
            invariant
                1 <= k <= n + 1,
                n < 0x8000_0000,
                order@.len() == k - 1,
                forall|q: int| 0 <= q < order@.len() ==> #[trigger] order@[q] == q + 1,
            decreases n + 1 - k,
        {
            order.push(k);
            k = k + 1;
        }
        let ghost before = order@;
        shuffle_indices(&mut order, rng);
        proof {
            before.to_multiset_ensures();
            order@.to_multiset_ensures();
            assert forall|q: int| 0 <= q < order@.len() implies 1 <= #[trigger] order@[q] <= n by {
                assert(order@.contains(order@[q]));
                assert(order@.to_multiset().count(order@[q]) > 0);
                assert(before.to_multiset().count(order@[q]) > 0);
                assert(before.contains(order@[q]));
            }
        }
        let tightened: usize = (n + 1) / 2;
        let mut k: usize = 0;
        while k < tightened
            invariant
                tightened <= n,
                order@.len() == n,
                forall|q: int| 0 <= q < n ==> 1 <= #[trigger] order@[q] <= n,
                due_dates@.len() == num_nodes,
                ready_times@.len() == num_nodes,
                num_nodes == n + 1,
                ready_times@[0] == 0,
                due_dates@[0] == due0,
                0 <= due0,
                pos.len() == num_nodes,
                forall|q: int| 0 <= q < num_nodes ==> 0 <= #[trigger] due_dates@[q],
                forall|q: int|
                    1 <= q < num_nodes ==> due_bounds(grid_distance(depot(), pos[q]), due0 as int).0
                        <= #[trigger] due_dates@[q] <= due_bounds(grid_distance(depot(), pos[q]), due0 as int).1,
                forall|q: int|
                    0 <= q < num_nodes ==> 0 <= #[trigger] ready_times@[q] <= due_dates@[q] && (
                    ready_times@[q] == 0 || due_dates@[q] - MAX_WINDOW <= ready_times@[q]
                        <= due_dates@[q] - MIN_WINDOW),
            decreases tightened - k,
        {
            let idx = order[k];
            let window = draw_i32(rng, MIN_WINDOW, MAX_WINDOW + 1);
            let ready = ready_time(due_dates[idx], window);
            ready_times.set(idx, ready);
            k = k + 1;
        }

        let distance_matrix = distance_matrix_of(&placement.positions);
        let routes = match calc_baseline_routes(num_nodes, MAX_CAPACITY, &demands, &distance_matrix) {
            Ok(routes) => routes,
            Err(_) => Vec::new(),
        };
        let baseline = match calc_routes_total_distance(
            num_nodes,
            MAX_CAPACITY,
            &demands,
            &distance_matrix,
            &routes,
        ) {
            Ok(t) => t,
            Err(_) => 0,
        };
        proof {
            lemma_total_distance_nonnegative(
                num_nodes as int,
                MAX_CAPACITY as int,
                demands@,
                distance_matrix@,
                routes@,
            );
        }
        let max_total_distance = max_total_distance_for(baseline, difficulty.better_than_baseline);
        Challenge {
            seed,
            difficulty,
            demands,
            distance_matrix,
            ready_times,
            due_dates,
            service_time: SERVICE_TIME,
            max_total_distance,
            max_capacity: MAX_CAPACITY,
            max_num_vehicles: routes.len(),
        }
    }
}

} // verus!
