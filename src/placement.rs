//! Placement of the depot and customers on the grid: cluster seeds first,
//! then customers kept near the seeds, then customers spread uniformly.
//!
//! Candidates are drawn and tested one at a time by the caller; this type
//! keeps every placed point distinct and records each node's cluster.

use crate::draws::{draw_i32, draw_usize_inclusive};
use crate::geometry::{find_nearest_cluster, is_nearest_seed, on_grid, DEPOT_X, DEPOT_Y, GRID_SIZE};
use rand::rngs::SmallRng;
use vstd::prelude::*;

verus! {

/// At most this many cluster seeds are placed.
pub const MAX_SEEDS: usize = 8;

/// Fewest seeds when there is room for a range of seed counts.
pub const MIN_SEEDS: usize = 3;

/// The depot's position.
pub open spec fn depot() -> (i32, i32) {
    (DEPOT_X, DEPOT_Y)
}

/// Index of a grid cell in row-major order.
pub open spec fn cell(p: (i32, i32)) -> int {
    p.0 * GRID_SIZE + p.1
}

/// Nodes placed so far: `positions[0]` is the depot, then the seeds, then
/// the other customers; `clusters[i]` is the seed index of node `i`'s
/// cluster, or `-1`.
pub struct Placement {
    pub num_customers: usize,
    pub num_seeds: usize,
    pub positions: Vec<(i32, i32)>,
    pub clusters: Vec<i32>,
    pub seeds: Vec<(i32, i32)>,
    pub occupied: Vec<bool>,
    pub pending: Option<(i32, i32)>,
}

/// The seed count for `num_customers` customers: drawn from
/// `[MIN_SEEDS, min(num_customers, MAX_SEEDS)]` when that range is not
/// empty, else one.
pub fn draw_seed_count(num_customers: usize, rng: &mut SmallRng) -> (r: usize)
    ensures
        ({
            let most = if num_customers < MAX_SEEDS { num_customers } else { MAX_SEEDS };
            if most >= MIN_SEEDS {
                MIN_SEEDS <= r <= most
            } else {
                r == 1
            }
        }),
{
    let most = if num_customers < MAX_SEEDS { num_customers } else { MAX_SEEDS };
    if most >= MIN_SEEDS {
        draw_usize_inclusive(rng, MIN_SEEDS, most)
    } else {
        1
    }
}

/// A candidate point drawn uniformly over the grid.
pub fn draw_point(rng: &mut SmallRng) -> (r: (i32, i32))
    ensures
        on_grid(r),
{
    let x = draw_i32(rng, 0, GRID_SIZE);
    let y = draw_i32(rng, 0, GRID_SIZE);
    (x, y)
}

impl Placement {
    /// What holds of the public fields: positions on the grid, pairwise
    /// distinct, the depot first; one cluster entry per node; the seeds are
    /// the nodes right after the depot, each in its own cluster; any other
    /// cluster entry names a placed seed.
    pub open spec fn layout(&self) -> bool {
        let pos = self.positions@;
        &&& 1 <= pos.len() <= self.num_customers + 1
        &&& self.num_customers < 0x7fff_ffff
        &&& 1 <= self.num_seeds <= self.num_customers
        &&& pos[0] == depot()
        &&& forall|i: int| 0 <= i < pos.len() ==> on_grid(#[trigger] pos[i])
        &&& forall|i: int, j: int| 0 <= i < j < pos.len() ==> #[trigger] pos[i] != #[trigger] pos[j]
        &&& self.clusters@.len() == pos.len()
        &&& self.clusters@[0] == -1
        &&& self.seeds@.len() <= self.num_seeds
        &&& self.seeds@.len() < pos.len()
        &&& forall|s: int|
            0 <= s < self.seeds@.len() ==> #[trigger] self.seeds@[s] == pos[s + 1]
                && self.clusters@[s + 1] == s
        &&& forall|i: int|
            0 <= i < pos.len() ==> -1 <= #[trigger] self.clusters@[i] < self.seeds@.len()
    }

    /// `layout`, and the occupancy grid marks exactly the placed points and
    /// the points already drawn and refused.
    pub open spec fn well_formed(&self) -> bool {
        &&& self.layout()
        &&& self.occupied@.len() == GRID_SIZE * GRID_SIZE
        &&& forall|i: int| 0 <= i < self.positions@.len() ==> self.occupied@[cell(#[trigger] self.positions@[i])]
        &&& self.pending matches Some(p) ==> on_grid(p) && self.occupied@[cell(p)]
            && !self.positions@.contains(p)
    }

    /// The point `p` has been drawn before, or is the depot.
    pub open spec fn taken(&self, p: (i32, i32)) -> bool {
        self.occupied@[cell(p)]
    }

    /// A point was claimed by the last call of `claim` and not yet added.
    pub open spec fn pending_point(&self) -> Option<(i32, i32)> {
        self.pending
    }

    /// The depot alone, ready for `num_seeds` seeds among `num_nodes - 1`
    /// customers.
    pub fn new(num_nodes: usize, num_seeds: usize) -> (r: Placement)
        requires
            2 <= num_nodes <= 0x7fff_ffff,
            1 <= num_seeds < num_nodes,
        ensures
            r.well_formed(),
            r.num_customers == num_nodes - 1,
            r.num_seeds == num_seeds,
            r.positions@ == seq![depot()],
            r.seeds@.len() == 0,
            r.pending_point() is None,
    {
        let mut occupied: Vec<bool> = Vec::new();
        let total: usize = (GRID_SIZE as usize) * (GRID_SIZE as usize);
        let depot_cell: usize = (DEPOT_X as usize) * (GRID_SIZE as usize) + DEPOT_Y as usize;
        while occupied.len() < total
            invariant
                occupied@.len() <= total,
                total == GRID_SIZE * GRID_SIZE,
                depot_cell == cell(depot()),
                forall|i: int| 0 <= i < occupied@.len() ==> #[trigger] occupied@[i] == (i == depot_cell),
            decreases total - occupied@.len(),
        {
            let mark = occupied.len() == depot_cell;
            occupied.push(mark);
        }
        let mut positions: Vec<(i32, i32)> = Vec::new();
        positions.push((DEPOT_X, DEPOT_Y));
        let mut clusters: Vec<i32> = Vec::new();
        clusters.push(-1);
        Placement {
            num_customers: num_nodes - 1,
            num_seeds,
            positions,
            clusters,
            seeds: Vec::new(),
            occupied,
            pending: None,
        }
    }

    /// More seeds are to be placed.
    pub fn needs_seed(&self) -> (r: bool)
        ensures
            r == (self.seeds@.len() < self.num_seeds),
    {
        self.seeds.len() < self.num_seeds
    }

    /// Fewer than half the customers (rounded down) are placed.
    pub fn needs_clustered(&self) -> (r: bool)
        ensures
            r == (self.positions@.len() < self.num_customers / 2 + 1),
    {
        self.positions.len() < self.num_customers / 2 + 1
    }

    /// Some customers are still to be placed.
    pub fn needs_unclustered(&self) -> (r: bool)
        ensures
            r == (self.positions@.len() < self.num_customers + 1),
    {
        self.positions.len() <= self.num_customers
    }

    /// Marks `p` as drawn; true when it was free before.
    fn mark(&mut self, p: (i32, i32)) -> (r: bool)
        requires
            old(self).well_formed(),
            on_grid(p),
        ensures
            r == !old(self).occupied@[cell(p)],
            final(self).occupied@ == old(self).occupied@.update(cell(p), true),
            final(self).positions == old(self).positions,
            final(self).clusters == old(self).clusters,
            final(self).seeds == old(self).seeds,
            final(self).num_customers == old(self).num_customers,
            final(self).num_seeds == old(self).num_seeds,
            final(self).pending == old(self).pending,
    {
        let c: usize = (p.0 as usize) * (GRID_SIZE as usize) + p.1 as usize;
        if self.occupied[c] {
            false
        } else {
            self.occupied.set(c, true);
            true
        }
    }

    /// Offers `p` as the next seed: placed, and true, when no point was
    /// drawn there before.
    pub fn offer_seed(&mut self, p: (i32, i32)) -> (r: bool)
        requires
            old(self).well_formed(),
            on_grid(p),
            old(self).seeds@.len() < old(self).num_seeds,
            old(self).positions@.len() == old(self).seeds@.len() + 1,
        ensures
            final(self).well_formed(),
            r == !old(self).taken(p),
            final(self).taken(p),
            final(self).num_customers == old(self).num_customers,
            final(self).num_seeds == old(self).num_seeds,
            r ==> final(self).positions@ == old(self).positions@.push(p)
                && final(self).seeds@ == old(self).seeds@.push(p)
                && final(self).clusters@ == old(self).clusters@.push(old(self).seeds@.len() as i32),
            !r ==> final(self).positions == old(self).positions && final(self).seeds
                == old(self).seeds && final(self).clusters == old(self).clusters,
            final(self).pending_point() is None,
    {
        self.pending = None;
        if !self.mark(p) {
            return false;
        }
        let s = self.seeds.len();
        self.positions.push(p);
        self.seeds.push(p);
        self.clusters.push(s as i32);
        proof {
            let pos = self.positions@;
            assert(forall|i: int| 0 <= i < pos.len() - 1 ==> pos[i] != p);
        }
        true
    }

    /// Draws `p` as a candidate near the seeds: true when no point was drawn
    /// there before, and the point then waits for `add_claimed`.
    pub fn claim(&mut self, p: (i32, i32)) -> (r: bool)
        requires
            old(self).well_formed(),
            on_grid(p),
        ensures
            final(self).well_formed(),
            r == !old(self).taken(p),
            final(self).taken(p),
            final(self).positions == old(self).positions,
            final(self).seeds == old(self).seeds,
            final(self).clusters == old(self).clusters,
            final(self).num_customers == old(self).num_customers,
            final(self).num_seeds == old(self).num_seeds,
            final(self).pending_point() == if r { Some(p) } else { None },
    {
        self.pending = None;
        if self.mark(p) {
            self.pending = Some(p);
            true
        } else {
            false
        }
    }

    /// Places the point of the last successful `claim`, in the cluster of
    /// its nearest seed.
    pub fn add_claimed(&mut self)
        requires
            old(self).well_formed(),
            old(self).pending_point() is Some,
            old(self).seeds@.len() >= 1,
            old(self).positions@.len() < old(self).num_customers + 1,
        ensures
            final(self).well_formed(),
            final(self).positions@ == old(self).positions@.push(old(self).pending_point()->Some_0),
            final(self).seeds == old(self).seeds,
            final(self).clusters@.len() == old(self).clusters@.len() + 1,
            final(self).clusters@.drop_last() == old(self).clusters@,
            is_nearest_seed(
                old(self).pending_point()->Some_0,
                old(self).seeds@,
                final(self).clusters@.last() as int,
            ),
            final(self).num_customers == old(self).num_customers,
            final(self).num_seeds == old(self).num_seeds,
            final(self).pending_point() is None,
    {
        let p = match self.pending {
            Some(p) => p,
            None => (DEPOT_X, DEPOT_Y),
        };
        proof {
            assert forall|i: int| 0 <= i < self.seeds@.len() implies on_grid(#[trigger] self.seeds@[i]) by {
                assert(self.seeds@[i] == self.positions@[i + 1]);
            }
        }
        let c = find_nearest_cluster(p, &self.seeds);
        self.positions.push(p);
        self.clusters.push(c);
        self.pending = None;
        proof {
            let pos = self.positions@;
            assert(forall|i: int| 0 <= i < pos.len() - 1 ==> pos[i] != p);
            assert(self.clusters@.drop_last() =~= old(self).clusters@);
        }
    }

    /// Offers `p` as a customer outside every cluster: placed, and true,
    /// when no point was drawn there before.
    pub fn offer_unclustered(&mut self, p: (i32, i32)) -> (r: bool)
        requires
            old(self).well_formed(),
            on_grid(p),
            old(self).positions@.len() < old(self).num_customers + 1,
        ensures
            final(self).well_formed(),
            r == !old(self).taken(p),
            final(self).taken(p),
            final(self).num_customers == old(self).num_customers,
            final(self).num_seeds == old(self).num_seeds,
            final(self).seeds == old(self).seeds,
            r ==> final(self).positions@ == old(self).positions@.push(p)
                && final(self).clusters@ == old(self).clusters@.push(-1i32),
            !r ==> final(self).positions == old(self).positions && final(self).clusters
                == old(self).clusters,
            final(self).pending_point() is None,
    {
        self.pending = None;
        if !self.mark(p) {
            return false;
        }
        self.positions.push(p);
        self.clusters.push(-1);
        proof {
            let pos = self.positions@;
            assert(forall|i: int| 0 <= i < pos.len() - 1 ==> pos[i] != p);
        }
        true
    }
}

} // verus!
