//! Instances, solutions, the distance bound and the solution verifier.

use crate::feasibility::{feasible, lemma_total_distance_decides_feasibility, total_length};
use crate::routes::{calc_routes_total_distance, total_distance_of, valid_tables, RouteError};
use vstd::prelude::*;

verus! {

/// Vehicle capacity of every generated instance.
pub const MAX_CAPACITY: i32 = 200;

/// Time spent at each customer.
pub const SERVICE_TIME: i32 = 10;

/// The permille scale of `better_than_baseline`.
pub const PERMILLE: u32 = 1000;

/// Size and hardness of an instance.
#[derive(Debug, Clone, Copy, PartialEq, Eq, Structural)]
pub struct Difficulty {
    pub num_nodes: usize,
    pub better_than_baseline: u32,
}

impl Difficulty {
    /// Reads `[num_nodes, better_than_baseline]`; negative entries are cast
    /// as Rust's `as` casts them.
    pub fn from_arr(arr: &[i32; 2]) -> (r: Difficulty)
        ensures
            r.num_nodes == arr[0] as usize,
            r.better_than_baseline == arr[1] as u32,
    {
        Difficulty { num_nodes: arr[0] as usize, better_than_baseline: arr[1] as u32 }
    }

    /// Writes `[num_nodes, better_than_baseline]`, each cast to `i32`.
    pub fn to_arr(&self) -> (r: [i32; 2])
        ensures
            r[0] == self.num_nodes as i32,
            r[1] == self.better_than_baseline as i32,
    {
        [self.num_nodes as i32, self.better_than_baseline as i32]
    }
}

/// A candidate solution: each route a sequence of node indices.
#[derive(Debug, Clone, PartialEq, Eq)]
pub struct Solution {
    pub routes: Vec<Vec<usize>>,
}

/// A generated instance.
#[derive(Debug, Clone)]
pub struct Challenge {
    pub seed: [u8; 32],
    pub difficulty: Difficulty,
    pub demands: Vec<i32>,
    pub distance_matrix: Vec<Vec<i32>>,
    pub ready_times: Vec<i32>,
    pub due_dates: Vec<i32>,
    pub service_time: i32,
    pub max_total_distance: i64,
    pub max_capacity: i32,
    pub max_num_vehicles: usize,
}

/// Why a solution is rejected.
#[derive(Debug, Clone, Copy, PartialEq, Eq, Structural)]
pub enum SolutionError {
    /// The routes break a structural, capacity or coverage rule.
    Infeasible(RouteError),
    /// The routes are feasible but longer than the instance allows.
    TooLong { total_distance: i64, max_total_distance: i64 },
}

/// The distance bound for a baseline of length `baseline`: the baseline
/// shortened by `better_than_baseline` permille, rounded down.
pub open spec fn calibrated_bound(baseline: int, better_than_baseline: int) -> int {
    baseline * (PERMILLE - better_than_baseline) / (PERMILLE as int)
}

/// Computes `calibrated_bound`.
pub fn max_total_distance_for(baseline: i64, better_than_baseline: u32) -> (r: i64)
    requires
        baseline >= 0,
        better_than_baseline <= PERMILLE,
    ensures
        r == calibrated_bound(baseline as int, better_than_baseline as int),
        0 <= r <= baseline,
{
    let factor: u128 = (PERMILLE - better_than_baseline) as u128;
    assert(baseline as u128 * factor <= 0x8000_0000_0000_0000u128 * 1000) by (nonlinear_arith)
        requires
            0 <= baseline < 0x8000_0000_0000_0000,
            factor <= 1000,
    ;
    let product: u128 = baseline as u128 * factor;
    proof {
        lemma_bound_monotonic(baseline as int, 0, better_than_baseline as int);
    }
    (product / (PERMILLE as u128)) as i64
}

/// A larger `better_than_baseline` never loosens the bound; at zero the bound
/// is the baseline itself, at the full permille it is zero, and it never
/// exceeds the baseline or falls below zero.
pub proof fn lemma_bound_monotonic(baseline: int, lower: int, higher: int)
    requires
        baseline >= 0,
        0 <= lower <= higher <= PERMILLE,
    ensures
        calibrated_bound(baseline, higher) <= calibrated_bound(baseline, lower),
        calibrated_bound(baseline, 0) == baseline,
        calibrated_bound(baseline, PERMILLE as int) == 0,
        0 <= calibrated_bound(baseline, higher) <= baseline,
{
    assert(baseline * (1000 - higher) <= baseline * (1000 - lower)) by (nonlinear_arith)
        requires
            baseline >= 0,
            lower <= higher,
    ;
    assert(0 <= baseline * (1000 - higher) <= baseline * 1000) by (nonlinear_arith)
        requires
            baseline >= 0,
            0 <= higher <= 1000,
    ;
    assert(baseline * (1000 - higher) / 1000 <= baseline * (1000 - lower) / 1000) by (nonlinear_arith)
        requires
            baseline * (1000 - higher) <= baseline * (1000 - lower),
    ;
    assert(baseline * 1000 / 1000 == baseline) by (nonlinear_arith);
    assert(baseline * (1000 - higher) / 1000 <= baseline * 1000 / 1000) by (nonlinear_arith)
        requires
            baseline * (1000 - higher) <= baseline * 1000,
    ;
}

impl Challenge {
    /// The tables of the instance fit together: one demand, time window and
    /// matrix row per node, at least the depot and one customer, and a
    /// capacity of at least one.
    pub open spec fn well_formed(&self) -> bool {
        &&& self.difficulty.num_nodes >= 2
        &&& valid_tables(self.difficulty.num_nodes as int, self.demands@, self.distance_matrix@)
        &&& self.ready_times@.len() == self.difficulty.num_nodes
        &&& self.due_dates@.len() == self.difficulty.num_nodes
    }

    /// The total distance of `solution` on this instance, or its first violation.
    pub open spec fn solution_distance(&self, solution: &Solution) -> Result<int, RouteError> {
        total_distance_of(
            self.difficulty.num_nodes as int,
            self.max_capacity as int,
            self.demands@,
            self.distance_matrix@,
            solution.routes@,
        )
    }

    /// Accepts `solution` when its routes are feasible and their total
    /// distance is at most `max_total_distance`.
    pub fn verify_solution(&self, solution: &Solution) -> (r: Result<(), SolutionError>)
        requires
            self.well_formed(),
        ensures
            r is Ok <==> (self.solution_distance(solution) matches Ok(t) && t
                <= self.max_total_distance),
            r is Ok <==> feasible(
                self.difficulty.num_nodes as int,
                self.max_capacity as int,
                self.demands@,
                solution.routes@,
            ) && total_length(self.distance_matrix@, solution.routes@) <= self.max_total_distance,
            self.solution_distance(solution) is Err ==> r == Err::<(), SolutionError>(
                SolutionError::Infeasible(self.solution_distance(solution)->Err_0),
            ),
            self.solution_distance(solution) is Ok && self.solution_distance(solution)->Ok_0
                > self.max_total_distance ==> r
                == Err::<(), SolutionError>(
                (SolutionError::TooLong {
                    total_distance: self.solution_distance(solution)->Ok_0 as i64,
                    max_total_distance: self.max_total_distance,
                }),
            ),
    {
        proof {
            lemma_total_distance_decides_feasibility(
                self.difficulty.num_nodes as int,
                self.max_capacity as int,
                self.demands@,
                self.distance_matrix@,
                solution.routes@,
            );
        }
        match calc_routes_total_distance(
            self.difficulty.num_nodes,
            self.max_capacity,
            &self.demands,
            &self.distance_matrix,
            &solution.routes,
        ) {
            Err(e) => Err(SolutionError::Infeasible(e)),
            Ok(total_distance) => {
                if total_distance <= self.max_total_distance {
                    Ok(())
                } else {
                    Err(
                        SolutionError::TooLong {
                            total_distance,
                            max_total_distance: self.max_total_distance,
                        },
                    )
                }
            },
        }
    }
}

} // verus!
