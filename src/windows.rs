//! Demands and time windows: the planning horizon and each customer's window.

use crate::instance::{MAX_CAPACITY, SERVICE_TIME};
use vstd::prelude::*;

verus! {

/// Expected spacing between neighbouring nodes, in hundredths of a grid
/// unit: a quarter of the grid side times 0.5214.
pub const AVG_SPACING_HUNDREDTHS: u64 = 13035;

/// Largest demand a customer can have.
pub const MAX_DEMAND: i32 = 35;

/// Range of the width of a tightened time window.
pub const MIN_WINDOW: i32 = 10;

pub const MAX_WINDOW: i32 = 60;

/// The depot's due date: `max_distance + (spacing + service time) * (capacity
/// / average demand)`, with average demand `total_demand / num_customers`,
/// rounded to the nearest integer (halves up).
pub open spec fn horizon(max_distance: int, total_demand: int, num_customers: int) -> int {
    let scale = 100 * total_demand;
    let numer = max_distance * scale + (AVG_SPACING_HUNDREDTHS + 100 * SERVICE_TIME) * MAX_CAPACITY
        * num_customers;
    (2 * numer + scale) / (2 * scale)
}

/// Computes `horizon`.
pub fn depot_due_date(max_distance: i32, total_demand: u64, num_customers: u64) -> (r: i32)
    requires
        0 <= max_distance <= 1415,
        1 <= num_customers <= total_demand,
    ensures
        r == horizon(max_distance as int, total_demand as int, num_customers as int),
        max_distance <= r <= max_distance + 28071,
{
    let scale: u128 = 100 * total_demand as u128;
    let per_stop: u128 = AVG_SPACING_HUNDREDTHS as u128 + 100 * SERVICE_TIME as u128;
    assert(per_stop * MAX_CAPACITY as u128 == 2807000) by (nonlinear_arith)
        requires
            per_stop == 14035,
    ;
    let k: u128 = per_stop * MAX_CAPACITY as u128;
    assert(max_distance as u128 * scale <= 1415 * 100 * 0x1_0000_0000_0000_0000) by (nonlinear_arith)
        requires
            0 <= max_distance <= 1415,
            scale == 100 * total_demand,
            total_demand < 0x1_0000_0000_0000_0000,
    ;
    assert(k * num_customers as u128 <= 2807000 * 0x1_0000_0000_0000_0000) by (nonlinear_arith)
        requires
            k == 2807000,
            num_customers < 0x1_0000_0000_0000_0000,
    ;
    let numer: u128 = max_distance as u128 * scale + k * num_customers as u128;
    let r: u128 = (2 * numer + scale) / (2 * scale);
    assert(max_distance <= r <= max_distance + 28071) by (nonlinear_arith)
        requires
            0 <= max_distance,
            scale == 100 * total_demand,
            1 <= num_customers <= total_demand,
            numer == max_distance * scale + 2807000 * num_customers,
            r == (2 * numer + scale) / (2 * scale),
    ;
    r as i32
}

/// The due dates a customer at distance `distance` from the depot may get:
/// from `distance` to `horizon - SERVICE_TIME - distance`, widened to at
/// least two values when that range is empty or a single value.
pub open spec fn due_bounds(distance: int, horizon: int) -> (int, int) {
    let hi = horizon - SERVICE_TIME - distance;
    if hi <= distance {
        (distance, distance + 1)
    } else {
        (distance, hi)
    }
}

/// Computes `due_bounds`; a due date is then drawn from `[r.0, r.1)`.
pub fn due_range(distance: i32, horizon: i32) -> (r: (i32, i32))
    requires
        0 <= distance <= 1415,
        0 <= horizon <= 0x1000_0000,
    ensures
        r.0 == due_bounds(distance as int, horizon as int).0,
        r.1 == due_bounds(distance as int, horizon as int).1,
        0 <= r.0 < r.1,
{
    let hi = horizon - SERVICE_TIME - distance;
    if hi <= distance {
        (distance, distance + 1)
    } else {
        (distance, hi)
    }
}

/// A clustered customer's due date: the mean (rounded down) of its own and
/// its cluster seed's, clamped into `[lo, hi]`.
pub open spec fn clustered_due(own: int, seed_due: int, lo: int, hi: int) -> int {
    let mean = (own + seed_due) / 2;
    if mean < lo {
        lo
    } else if mean > hi {
        hi
    } else {
        mean
    }
}

/// Computes `clustered_due`.
pub fn clustered_due_date(own: i32, seed_due: i32, lo: i32, hi: i32) -> (r: i32)
    requires
        0 <= own,
        0 <= seed_due,
        lo <= hi,
    ensures
        r == clustered_due(own as int, seed_due as int, lo as int, hi as int),
        lo <= r <= hi,
{
    let mean: i32 = ((own as i64 + seed_due as i64) / 2) as i32;
    if mean < lo {
        lo
    } else if mean > hi {
        hi
    } else {
        mean
    }
}

/// The ready time of a customer whose window is tightened to `window`
/// before its due date: `max(0, due_date - window)`.
pub fn ready_time(due_date: i32, window: i32) -> (r: i32)
    requires
        0 <= due_date,
        0 <= window,
    ensures
        r == if due_date - window > 0 { due_date - window } else { 0 },
        0 <= r <= due_date,
{
    if due_date - window > 0 {
        due_date - window
    } else {
        0
    }
}

} // verus!
