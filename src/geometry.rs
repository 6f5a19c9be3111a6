//! Points on the grid and the rounded Euclidean distance between them.

use vstd::prelude::*;

verus! {

/// Side length of the square grid on which nodes are placed.
pub const GRID_SIZE: i32 = 1000;

/// Coordinates of the depot: the centre of the grid.
pub const DEPOT_X: i32 = 500;

pub const DEPOT_Y: i32 = 500;

/// A point lies on the grid: both coordinates in `[0, GRID_SIZE)`.
pub open spec fn on_grid(p: (i32, i32)) -> bool {
    0 <= p.0 < GRID_SIZE && 0 <= p.1 < GRID_SIZE
}

/// Squared Euclidean distance between two points.
pub open spec fn squared_distance(p: (i32, i32), q: (i32, i32)) -> int {
    (p.0 - q.0) * (p.0 - q.0) + (p.1 - q.1) * (p.1 - q.1)
}

/// `r` is the square root of `s` rounded to the nearest integer:
/// `r - 1/2 <= sqrt(s) < r + 1/2`, written without fractions.
pub open spec fn is_rounded_root(s: int, r: int) -> bool {
    &&& r >= 0
    &&& 4 * s < (2 * r + 1) * (2 * r + 1)
    &&& (r == 0 || (2 * r - 1) * (2 * r - 1) <= 4 * s)
}

/// The Euclidean distance between two points, rounded to the nearest integer.
pub open spec fn grid_distance(p: (i32, i32), q: (i32, i32)) -> int {
    choose|r: int| is_rounded_root(squared_distance(p, q), r)
}

/// A non-negative integer has at most one rounded square root.
pub proof fn lemma_rounded_root_unique(s: int, r1: int, r2: int)
    requires
        is_rounded_root(s, r1),
        is_rounded_root(s, r2),
    ensures
        r1 == r2,
{
    if r1 < r2 {
        assert((2 * r1 + 1) * (2 * r1 + 1) <= (2 * r2 - 1) * (2 * r2 - 1)) by (nonlinear_arith)
            requires
                0 <= r1 < r2,
        ;
    } else if r2 < r1 {
        assert((2 * r2 + 1) * (2 * r2 + 1) <= (2 * r1 - 1) * (2 * r1 - 1)) by (nonlinear_arith)
            requires
                0 <= r2 < r1,
        ;
    }
}

/// Once one rounded root of the squared distance is known, it is the grid distance.
pub proof fn lemma_grid_distance_is(p: (i32, i32), q: (i32, i32), r: int)
    requires
        is_rounded_root(squared_distance(p, q), r),
    ensures
        grid_distance(p, q) == r,
{
    let c = grid_distance(p, q);
    assert(is_rounded_root(squared_distance(p, q), c));
    lemma_rounded_root_unique(squared_distance(p, q), c, r);
}

/// The distance between two points does not depend on their order, and a
/// point is at distance zero from itself.
pub proof fn lemma_grid_distance_symmetric(p: (i32, i32), q: (i32, i32))
    ensures
        grid_distance(p, q) == grid_distance(q, p),
        grid_distance(p, p) == 0,
{
    assert(squared_distance(p, q) == squared_distance(q, p)) by (nonlinear_arith);
    assert(squared_distance(p, p) == 0) by (nonlinear_arith);
    assert(is_rounded_root(0, 0)) by (nonlinear_arith);
    lemma_grid_distance_is(p, p, 0);
}

/// Rounded square root of `s`, for the squared distances that occur on the grid.
fn rounded_root(s: u64) -> (r: u64)
    requires
        s <= 2 * (GRID_SIZE as int) * (GRID_SIZE as int),
    ensures
        is_rounded_root(s as int, r as int),
{
    let mut lo: u64 = 0;
    let mut hi: u64 = 2048;
    assert(4 * (s as int) < (2 * 2048 - 1) * (2 * 2048 - 1));
    while hi - lo > 1
        invariant
            lo < hi <= 2048,
            s <= 2 * (GRID_SIZE as int) * (GRID_SIZE as int),
            lo == 0 || (2 * lo - 1) * (2 * lo - 1) <= 4 * s,
            4 * (s as int) < (2 * (hi as int) - 1) * (2 * (hi as int) - 1),
        decreases hi - lo,
    {
        let mid: u64 = lo + (hi - lo) / 2;
        assert((2 * mid - 1) * (2 * mid - 1) <= 4095 * 4095) by (nonlinear_arith)
            requires
                1 <= mid < 2048,
        ;
        if (2 * mid - 1) * (2 * mid - 1) <= 4 * s {
            lo = mid;
        } else {
            hi = mid;
        }
    }
    lo
}

/// Euclidean distance between two grid points, rounded to the nearest integer.
pub fn euclidean_distance(p1: (i32, i32), p2: (i32, i32)) -> (r: i32)
    requires
        on_grid(p1),
        on_grid(p2),
    ensures
        r as int == grid_distance(p1, p2),
        0 <= r <= 1415,
{
    let dx: i64 = p1.0 as i64 - p2.0 as i64;
    let dy: i64 = p1.1 as i64 - p2.1 as i64;
    assert(dx * dx <= 999 * 999 && dy * dy <= 999 * 999 && dx * dx >= 0 && dy * dy >= 0)
        by (nonlinear_arith)
        requires
            -999 <= dx <= 999,
            -999 <= dy <= 999,
    ;
    let s: u64 = (dx * dx + dy * dy) as u64;
    let r = rounded_root(s);
    proof {
        lemma_grid_distance_is(p1, p2, r as int);
        assert(s <= 2 * 999 * 999);
        assert(r <= 1415) by (nonlinear_arith)
            requires
                s <= 2 * 999 * 999,
                r == 0 || (2 * r - 1) * (2 * r - 1) <= 4 * s,
        ;
    }
    r as i32
}

/// `c` indexes a seed nearest to `point`, the first of equally near ones.
pub open spec fn is_nearest_seed(point: (i32, i32), seeds: Seq<(i32, i32)>, c: int) -> bool {
    &&& 0 <= c < seeds.len()
    &&& forall|j: int|
        0 <= j < seeds.len() ==> grid_distance(point, seeds[c]) <= grid_distance(
            point,
            #[trigger] seeds[j],
        )
    &&& forall|j: int|
        0 <= j < c ==> grid_distance(point, seeds[c]) < grid_distance(point, #[trigger] seeds[j])
}

/// Index of the seed nearest to `point`, the lowest index among equally
/// near ones; `-1` when there are no seeds.
pub fn find_nearest_cluster(point: (i32, i32), seeds: &Vec<(i32, i32)>) -> (r: i32)
    requires
        on_grid(point),
        seeds@.len() <= i32::MAX,
        forall|i: int| 0 <= i < seeds@.len() ==> on_grid(#[trigger] seeds@[i]),
    ensures
        seeds@.len() == 0 ==> r == -1,
        seeds@.len() > 0 ==> is_nearest_seed(point, seeds@, r as int),
{
    if seeds.len() == 0 {
        return -1;
    }
    let mut best: usize = 0;
    let mut best_dist = euclidean_distance(point, seeds[0]);
    let mut i: usize = 1;
    while i < seeds.len()
        invariant
            on_grid(point),
            seeds@.len() <= i32::MAX,
            forall|k: int| 0 <= k < seeds@.len() ==> on_grid(#[trigger] seeds@[k]),
            1 <= i <= seeds@.len(),
            best < i,
            best_dist as int == grid_distance(point, seeds@[best as int]),
            forall|j: int|
                0 <= j < i ==> best_dist <= grid_distance(point, #[trigger] seeds@[j]),
            forall|j: int|
                0 <= j < best ==> best_dist < grid_distance(point, #[trigger] seeds@[j]),
        decreases seeds@.len() - i,
    {
        let d = euclidean_distance(point, seeds[i]);
        if d < best_dist {
            best = i;
            best_dist = d;
        }
        i = i + 1;
    }
    best as i32
}

/// The rounded Euclidean distance between every pair of `positions`, row by
/// row: symmetric, with zeros on the diagonal.
pub fn distance_matrix_of(positions: &Vec<(i32, i32)>) -> (m: Vec<Vec<i32>>)
    requires
        forall|i: int| 0 <= i < positions@.len() ==> on_grid(#[trigger] positions@[i]),
    ensures
        m@.len() == positions@.len(),
        forall|i: int| 0 <= i < m@.len() ==> (#[trigger] m@[i])@.len() == positions@.len(),
        forall|i: int, j: int|
            0 <= i < m@.len() && 0 <= j < m@.len() ==> m@[i]@[j] == grid_distance(
                positions@[i],
                positions@[j],
            ) && 0 <= #[trigger] m@[i]@[j] <= 1415,
        forall|i: int, j: int|
            0 <= i < m@.len() && 0 <= j < m@.len() ==> #[trigger] m@[i]@[j] == m@[j]@[i],
        forall|i: int| 0 <= i < m@.len() ==> #[trigger] m@[i]@[i] == 0,
{
    let n = positions.len();
    let mut m: Vec<Vec<i32>> = Vec::new();
    let mut i: usize = 0;
    while i < n
        invariant
            n == positions@.len(),
            forall|k: int| 0 <= k < n ==> on_grid(#[trigger] positions@[k]),
            i <= n,
            m@.len() == i,
            forall|a: int| 0 <= a < i ==> (#[trigger] m@[a])@.len() == n,
            forall|a: int, b: int|
                0 <= a < i && 0 <= b < n ==> m@[a]@[b] == grid_distance(positions@[a], positions@[b])
                    && 0 <= #[trigger] m@[a]@[b] <= 1415,
        decreases n - i,
    {
        let mut row: Vec<i32> = Vec::new();
        let mut j: usize = 0;
        while j < n
            invariant
                n == positions@.len(),
                forall|k: int| 0 <= k < n ==> on_grid(#[trigger] positions@[k]),
                i < n,
                j <= n,
                row@.len() == j,
                forall|b: int|
                    0 <= b < j ==> row@[b] == grid_distance(positions@[i as int], positions@[b])
                        && 0 <= #[trigger] row@[b] <= 1415,
            decreases n - j,
        {
            let d = euclidean_distance(positions[i], positions[j]);
            row.push(d);
            j = j + 1;
        }
        m.push(row);
        i = i + 1;
    }
    proof {
        assert forall|a: int, b: int| 0 <= a < n && 0 <= b < n implies #[trigger] m@[a]@[b]
            == m@[b]@[a] by {
            lemma_grid_distance_symmetric(positions@[a], positions@[b]);
        }
        assert forall|a: int| 0 <= a < n implies #[trigger] m@[a]@[a] == 0 by {
            lemma_grid_distance_symmetric(positions@[a], positions@[a]);
        }
    }
    m
}

} // verus!
