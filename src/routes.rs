//! Feasibility and cost of a set of routes, and the greedy baseline that
//! calibrates an instance.

use vstd::prelude::*;
use crate::feasibility::{
    eligible,
    feasible,
    greedy_route,
    greedy_routes,
    greedy_stops,
    lemma_routes,
    lemma_total_distance_decides_feasibility,
    lemma_greedy_extend,
    lemma_walk,
    load,
    nearest_eligible,
    visits,
};
use vstd::set_lib::*;

verus! {

/// Why a set of routes is not a feasible solution.
#[derive(Debug, Clone, Copy, PartialEq, Eq, Structural)]
pub enum RouteError {
    /// A route does not start and end at the depot, or visits no customer.
    MalformedRoute,
    /// A route names a node that the instance does not have.
    UnknownNode,
    /// A non-depot node is visited more than once over all routes.
    RepeatedVisit,
    /// The demand served so far on a route exceeds the vehicle capacity.
    CapacityExceeded,
    /// Some non-depot node is visited by no route.
    UnvisitedNode,
}

/// The instance tables that routes are evaluated against: one demand per
/// node, never negative, and a square distance matrix over the nodes.
pub open spec fn valid_tables(num_nodes: int, demands: Seq<i32>, dm: Seq<Vec<i32>>) -> bool {
    &&& 1 <= num_nodes <= i32::MAX
    &&& demands.len() == num_nodes
    &&& dm.len() == num_nodes
    &&& forall|i: int| 0 <= i < num_nodes ==> (#[trigger] dm[i])@.len() == num_nodes
    &&& forall|i: int| 0 <= i < num_nodes ==> #[trigger] demands[i] >= 0
}

/// Visit flags before any route: only the depot counts as visited.
pub open spec fn initial_visits(num_nodes: int) -> Seq<bool> {
    Seq::new(num_nodes as nat, |i: int| i == 0)
}

/// Walks the customers `inner` of one route in order, starting at the depot
/// with the full capacity. The state is (visit flags, capacity left,
/// distance travelled, current node); the first violation met is the error.
pub open spec fn walk(
    cap: int,
    demands: Seq<i32>,
    dm: Seq<Vec<i32>>,
    inner: Seq<usize>,
    visited: Seq<bool>,
) -> Result<(Seq<bool>, int, int, int), RouteError>
    decreases inner.len(),
{
    if inner.len() == 0 {
        Ok((visited, cap, 0, 0))
    } else {
        match walk(cap, demands, dm, inner.drop_last(), visited) {
            Err(e) => Err(e),
            Ok(st) => {
                let node = inner.last() as int;
                if node >= visited.len() {
                    Err(RouteError::UnknownNode)
                } else if st.0[node] {
                    Err(RouteError::RepeatedVisit)
                } else if demands[node] > st.1 {
                    Err(RouteError::CapacityExceeded)
                } else {
                    Ok((st.0.update(node, true), st.1 - demands[node], st.2 + dm[st.3]@[node], node))
                }
            },
        }
    }
}

/// The customers of a route: everything between its first and last entry.
pub open spec fn inner_nodes(route: Seq<usize>) -> Seq<usize> {
    route.subrange(1, route.len() - 1)
}

/// A route has at least one customer and starts and ends at the depot.
pub open spec fn well_shaped(route: Seq<usize>) -> bool {
    route.len() >= 3 && route[0] == 0 && route.last() == 0
}

/// Evaluates one route: the visit flags after it and its length.
pub open spec fn eval_route(
    cap: int,
    demands: Seq<i32>,
    dm: Seq<Vec<i32>>,
    route: Seq<usize>,
    visited: Seq<bool>,
) -> Result<(Seq<bool>, int), RouteError> {
    if !well_shaped(route) {
        Err(RouteError::MalformedRoute)
    } else {
        match walk(cap, demands, dm, inner_nodes(route), visited) {
            Err(e) => Err(e),
            Ok(st) => Ok((st.0, st.2 + dm[st.3]@[0])),
        }
    }
}

/// Evaluates routes in order: the visit flags after them and their total length.
pub open spec fn eval_routes(
    cap: int,
    demands: Seq<i32>,
    dm: Seq<Vec<i32>>,
    routes: Seq<Vec<usize>>,
    visited: Seq<bool>,
) -> Result<(Seq<bool>, int), RouteError>
    decreases routes.len(),
{
    if routes.len() == 0 {
        Ok((visited, 0))
    } else {
        match eval_routes(cap, demands, dm, routes.drop_last(), visited) {
            Err(e) => Err(e),
            Ok(acc) => match eval_route(cap, demands, dm, routes.last()@, acc.0) {
                Err(e) => Err(e),
                Ok(r) => Ok((r.0, acc.1 + r.1)),
            },
        }
    }
}

/// The total distance of a solution, or the first violation in it.
pub open spec fn total_distance_of(
    num_nodes: int,
    cap: int,
    demands: Seq<i32>,
    dm: Seq<Vec<i32>>,
    routes: Seq<Vec<usize>>,
) -> Result<int, RouteError> {
    match eval_routes(cap, demands, dm, routes, initial_visits(num_nodes)) {
        Err(e) => Err(e),
        Ok(acc) => if forall|i: int| 0 <= i < num_nodes ==> #[trigger] acc.0[i] {
            Ok(acc.1)
        } else {
            Err(RouteError::UnvisitedNode)
        },
    }
}

/// The indices whose visit flag is set.
pub open spec fn visited_set(v: Seq<bool>) -> Set<int> {
    Set::new(|i: int| 0 <= i < v.len() && v[i])
}

proof fn lemma_visited_set(v: Seq<bool>)
    ensures
        visited_set(v).finite(),
        visited_set(v).len() <= v.len(),
        visited_set(v).len() == v.len() <==> forall|i: int| 0 <= i < v.len() ==> #[trigger] v[i],
{
    lemma_int_range(0, v.len() as int);
    lemma_len_subset(visited_set(v), set_int_range(0, v.len() as int));
    if forall|i: int| 0 <= i < v.len() ==> #[trigger] v[i] {
        assert(visited_set(v) =~= set_int_range(0, v.len() as int));
    }
    if exists|i: int| 0 <= i < v.len() && !#[trigger] v[i] {
        let k = choose|i: int| 0 <= i < v.len() && !#[trigger] v[i];
        let rest = set_int_range(0, v.len() as int).remove(k);
        lemma_len_subset(visited_set(v), rest);
    }
}

proof fn lemma_visited_set_mark(v: Seq<bool>, k: int)
    requires
        0 <= k < v.len(),
        !v[k],
    ensures
        visited_set(v.update(k, true)).len() == visited_set(v).len() + 1,
{
    lemma_visited_set(v);
    assert(visited_set(v.update(k, true)) =~= visited_set(v).insert(k));
}

proof fn lemma_initial_visits(num_nodes: int)
    requires
        num_nodes >= 1,
    ensures
        visited_set(initial_visits(num_nodes)).len() == 1,
{
    assert(visited_set(initial_visits(num_nodes)) =~= set![0int]);
}

proof fn lemma_walk_error_extends(
    cap: int,
    demands: Seq<i32>,
    dm: Seq<Vec<i32>>,
    inner: Seq<usize>,
    visited: Seq<bool>,
    k: int,
)
    requires
        0 <= k <= inner.len(),
        walk(cap, demands, dm, inner.subrange(0, k), visited) is Err,
    ensures
        walk(cap, demands, dm, inner, visited) == walk(cap, demands, dm, inner.subrange(0, k), visited),
    decreases inner.len() - k,
{
    if k < inner.len() {
        assert(inner.subrange(0, k + 1).drop_last() =~= inner.subrange(0, k));
        lemma_walk_error_extends(cap, demands, dm, inner, visited, k + 1);
    } else {
        assert(inner.subrange(0, k) =~= inner);
    }
}

proof fn lemma_routes_error_extends(
    cap: int,
    demands: Seq<i32>,
    dm: Seq<Vec<i32>>,
    routes: Seq<Vec<usize>>,
    visited: Seq<bool>,
    k: int,
)
    requires
        0 <= k <= routes.len(),
        eval_routes(cap, demands, dm, routes.subrange(0, k), visited) is Err,
    ensures
        eval_routes(cap, demands, dm, routes, visited) == eval_routes(
            cap,
            demands,
            dm,
            routes.subrange(0, k),
            visited,
        ),
    decreases routes.len() - k,
{
    if k < routes.len() {
        assert(routes.subrange(0, k + 1).drop_last() =~= routes.subrange(0, k));
        lemma_routes_error_extends(cap, demands, dm, routes, visited, k + 1);
    } else {
        assert(routes.subrange(0, k) =~= routes);
    }
}

/// Every entry of the distance matrix is non-negative.
pub open spec fn nonnegative_distances(dm: Seq<Vec<i32>>) -> bool {
    forall|i: int, j: int| 0 <= i < dm.len() && 0 <= j < dm[i]@.len() ==> #[trigger] dm[i]@[j] >= 0
}

proof fn lemma_walk_nonnegative(
    cap: int,
    demands: Seq<i32>,
    dm: Seq<Vec<i32>>,
    inner: Seq<usize>,
    visited: Seq<bool>,
)
    requires
        valid_tables(visited.len() as int, demands, dm),
        nonnegative_distances(dm),
    ensures
        walk(cap, demands, dm, inner, visited) matches Ok(st) ==> st.2 >= 0 && 0 <= st.3
            < visited.len() && st.0.len() == visited.len(),
    decreases inner.len(),
{
    if inner.len() > 0 {
        lemma_walk_nonnegative(cap, demands, dm, inner.drop_last(), visited);
    }
}

proof fn lemma_routes_nonnegative(
    cap: int,
    demands: Seq<i32>,
    dm: Seq<Vec<i32>>,
    routes: Seq<Vec<usize>>,
    visited: Seq<bool>,
)
    requires
        valid_tables(visited.len() as int, demands, dm),
        nonnegative_distances(dm),
    ensures
        eval_routes(cap, demands, dm, routes, visited) matches Ok(acc) ==> acc.1 >= 0
            && acc.0.len() == visited.len(),
    decreases routes.len(),
{
    if routes.len() > 0 {
        lemma_routes_nonnegative(cap, demands, dm, routes.drop_last(), visited);
        if let Ok(acc) = eval_routes(cap, demands, dm, routes.drop_last(), visited) {
            lemma_walk_nonnegative(cap, demands, dm, inner_nodes(routes.last()@), acc.0);
        }
    }
}

/// With non-negative distances, a feasible solution has a non-negative length.
pub proof fn lemma_total_distance_nonnegative(
    num_nodes: int,
    cap: int,
    demands: Seq<i32>,
    dm: Seq<Vec<i32>>,
    routes: Seq<Vec<usize>>,
)
    requires
        valid_tables(num_nodes, demands, dm),
        nonnegative_distances(dm),
    ensures
        total_distance_of(num_nodes, cap, demands, dm, routes) matches Ok(t) ==> t >= 0,
{
    lemma_routes_nonnegative(cap, demands, dm, routes, initial_visits(num_nodes));
}

/// Every `i32` distance, and so every leg of a route, lies within this bound.
spec fn leg_bound() -> int {
    0x8000_0000
}

/// Total distance of `routes`: checks that each route starts and ends at the
/// depot and has a customer, that no non-depot node is visited twice, that the
/// demand served never exceeds `max_capacity` along a route, and that every
/// node is visited; the first violation met is returned instead.
pub fn calc_routes_total_distance(
    num_nodes: usize,
    max_capacity: i32,
    demands: &Vec<i32>,
    distance_matrix: &Vec<Vec<i32>>,
    routes: &Vec<Vec<usize>>,
) -> (r: Result<i64, RouteError>)
    requires
        valid_tables(num_nodes as int, demands@, distance_matrix@),
    ensures
        r matches Ok(t) ==> total_distance_of(
            num_nodes as int,
            max_capacity as int,
            demands@,
            distance_matrix@,
            routes@,
        ) == Ok::<int, RouteError>(t as int),
        r matches Err(e) ==> total_distance_of(
            num_nodes as int,
            max_capacity as int,
            demands@,
            distance_matrix@,
            routes@,
        ) == Err::<int, RouteError>(e),
{
    let ghost cap = max_capacity as int;
    let ghost dm = distance_matrix@;
    let mut total: i64 = 0;
    let mut visited: Vec<bool> = Vec::new();
    let mut i: usize = 0;
    while i < num_nodes
        invariant
            i <= num_nodes,
            visited@ =~= initial_visits(num_nodes as int).subrange(0, i as int),
        decreases num_nodes - i,
    {
        visited.push(i == 0);
        i = i + 1;
    }
    proof {
        assert(visited@ =~= initial_visits(num_nodes as int));
        lemma_initial_visits(num_nodes as int);
    }
    let mut ri: usize = 0;
    while ri < routes.len()
        invariant
            valid_tables(num_nodes as int, demands@, dm),
            dm == distance_matrix@,
            cap == max_capacity as int,
            ri <= routes@.len(),
            visited@.len() == num_nodes,
            eval_routes(cap, demands@, dm, routes@.subrange(0, ri as int), initial_visits(num_nodes as int))
                == Ok::<(Seq<bool>, int), RouteError>((visited@, total as int)),
            visited_set(visited@).len() >= 1,
            -2 * (visited_set(visited@).len() - 1) * leg_bound() <= total
                <= 2 * (visited_set(visited@).len() - 1) * leg_bound(),
        decreases routes@.len() - ri,
    {
        let route = &routes[ri];
        let ghost vis0 = visited@;
        let ghost total0 = total as int;
        let ghost c0 = visited_set(visited@).len() - 1;
        proof {
            assert(routes@.subrange(0, ri + 1).drop_last() =~= routes@.subrange(0, ri as int));
            assert(routes@.subrange(0, ri + 1).last() == route);
        }
        if route.len() <= 2 || route[0] != 0 || route[route.len() - 1] != 0 {
            proof {
                lemma_routes_error_extends(cap, demands@, dm, routes@, initial_visits(num_nodes as int), ri + 1);
            }
            return Err(RouteError::MalformedRoute);
        }
        proof {
            lemma_visited_set(visited@);
        }
        let mut capacity: i32 = max_capacity;
        let mut current: usize = 0;
        let mut route_total: i64 = 0;
        let mut k: usize = 1;
        let last: usize = route.len() - 1;
        while k < last
            invariant
                valid_tables(num_nodes as int, demands@, dm),
                dm == distance_matrix@,
                cap == max_capacity as int,
                ri < routes@.len(),
                route == routes@[ri as int],
                last == route@.len() - 1,
                1 <= k <= last,
                visited@.len() == num_nodes,
                current < num_nodes,
                walk(cap, demands@, dm, route@.subrange(1, k as int), vis0) == Ok::<
                    (Seq<bool>, int, int, int),
                    RouteError,
                >((visited@, capacity as int, route_total as int, current as int)),
                total == total0,
                vis0.len() == num_nodes,
                well_shaped(route@),
                routes@.subrange(0, ri + 1).drop_last() == routes@.subrange(0, ri as int),
                routes@.subrange(0, ri + 1).last() == route,
                eval_routes(cap, demands@, dm, routes@.subrange(0, ri as int), initial_visits(num_nodes as int))
                    == Ok::<(Seq<bool>, int), RouteError>((vis0, total0)),
                c0 >= 0,
                c0 == visited_set(vis0).len() - 1,
                -2 * c0 * leg_bound() <= total0 <= 2 * c0 * leg_bound(),
                visited_set(visited@).len() - 1 == c0 + (k - 1),
                k == 1 ==> route_total == 0,
                k > 1 ==> -(2 * (k - 1) - 1) * leg_bound() <= route_total <= (2 * (k - 1) - 1)
                    * leg_bound(),
                visited_set(visited@).len() <= num_nodes,
            decreases last - k,
        {
            let node = route[k];
            proof {
                assert(route@.subrange(1, k + 1).drop_last() =~= route@.subrange(1, k as int));
                assert(route@.subrange(1, k + 1).last() == node);
            }
            if node >= num_nodes {
                proof {
                    assert(walk(cap, demands@, dm, route@.subrange(1, k + 1), vis0) is Err);
                    assert(inner_nodes(route@).subrange(0, k as int) =~= route@.subrange(1, k + 1));
                    lemma_walk_error_extends(cap, demands@, dm, inner_nodes(route@), vis0, k as int);
                    lemma_routes_error_extends(cap, demands@, dm, routes@, initial_visits(num_nodes as int), ri + 1);
                }
                return Err(RouteError::UnknownNode);
            }
            if visited[node] {
                proof {
                    assert(walk(cap, demands@, dm, route@.subrange(1, k + 1), vis0) is Err);
                    assert(inner_nodes(route@).subrange(0, k as int) =~= route@.subrange(1, k + 1));
                    lemma_walk_error_extends(cap, demands@, dm, inner_nodes(route@), vis0, k as int);
                    lemma_routes_error_extends(cap, demands@, dm, routes@, initial_visits(num_nodes as int), ri + 1);
                }
                return Err(RouteError::RepeatedVisit);
            }
            if demands[node] > capacity {
                proof {
                    assert(walk(cap, demands@, dm, route@.subrange(1, k + 1), vis0) is Err);
                    assert(inner_nodes(route@).subrange(0, k as int) =~= route@.subrange(1, k + 1));
                    lemma_walk_error_extends(cap, demands@, dm, inner_nodes(route@), vis0, k as int);
                    lemma_routes_error_extends(cap, demands@, dm, routes@, initial_visits(num_nodes as int), ri + 1);
                }
                return Err(RouteError::CapacityExceeded);
            }
            proof {
                lemma_visited_set_mark(visited@, node as int);
                lemma_visited_set(visited@.update(node as int, true));
                assert(c0 + k <= num_nodes - 1);
                assert(0 <= c0 + k <= i32::MAX);
                assert(-(2 * k - 1) * leg_bound() <= route_total + dm[current as int]@[node as int]
                    <= (2 * k - 1) * leg_bound()) by (nonlinear_arith)
                    requires
                        k >= 1,
                        k == 1 ==> route_total == 0,
                        k > 1 ==> -(2 * (k - 1) - 1) * leg_bound() <= route_total <= (2 * (k
                            - 1) - 1) * leg_bound(),
                        -leg_bound() <= dm[current as int]@[node as int] < leg_bound(),
                ;
                assert((2 * k - 1) * leg_bound() <= 2 * 0x8000_0000 * 0x8000_0000) by (nonlinear_arith)
                    requires
                        1 <= k <= i32::MAX,
                ;
            }
            visited.set(node, true);
            capacity = capacity - demands[node];
            route_total = route_total + distance_matrix[current][node] as i64;
            current = node;
            k = k + 1;
        }
        proof {
            assert(inner_nodes(route@) =~= route@.subrange(1, k as int));
            assert(k >= 2);
            assert(c0 + (k - 1) <= num_nodes - 1) by {
                lemma_visited_set(visited@);
            }
            assert(-2 * (c0 + (k - 1)) * leg_bound() <= total0 + route_total + dm[current as int]@[0]
                <= 2 * (c0 + (k - 1)) * leg_bound()) by (nonlinear_arith)
                requires
                    k >= 2,
                    c0 >= 0,
                    -2 * c0 * leg_bound() <= total0 <= 2 * c0 * leg_bound(),
                    -(2 * (k - 1) - 1) * leg_bound() <= route_total <= (2 * (k - 1) - 1) * leg_bound(),
                    -leg_bound() <= dm[current as int]@[0] < leg_bound(),
            ;
            assert(2 * (c0 + (k - 1)) * leg_bound() <= 2 * 0x7fff_ffff * 0x8000_0000) by (nonlinear_arith)
                requires
                    0 <= c0 + (k - 1) <= 0x7fff_ffff,
            ;
        }
        total = total + route_total + distance_matrix[current][0] as i64;
        ri = ri + 1;
    }
    proof {
        assert(routes@.subrange(0, routes@.len() as int) =~= routes@);
    }
    let mut j: usize = 0;
    while j < num_nodes
        invariant
            j <= num_nodes,
            visited@.len() == num_nodes,
            forall|q: int| 0 <= q < j ==> #[trigger] visited@[q],
            dm == distance_matrix@,
            cap == max_capacity as int,
            eval_routes(cap, demands@, dm, routes@, initial_visits(num_nodes as int))
                == Ok::<(Seq<bool>, int), RouteError>((visited@, total as int)),
        decreases num_nodes - j,
    {
        if !visited[j] {
            proof {
                assert(!(forall|q: int| 0 <= q < num_nodes ==> #[trigger] visited@[q]));
                let acc = eval_routes(cap, demands@, dm, routes@, initial_visits(num_nodes as int));
                assert(acc is Ok);
                assert(acc->Ok_0.0 == visited@);
            }
            return Err(RouteError::UnvisitedNode);
        }
        j = j + 1;
    }
    Ok(total)
}

/// The unvisited node nearest to `current` whose demand fits `capacity`,
/// the lowest index among equally near ones; `num_nodes` when none fits.
fn nearest_eligible_node(
    num_nodes: usize,
    demands: &Vec<i32>,
    distance_matrix: &Vec<Vec<i32>>,
    visited: &Vec<bool>,
    current: usize,
    capacity: i32,
) -> (best: usize)
    requires
        valid_tables(num_nodes as int, demands@, distance_matrix@),
        visited@.len() == num_nodes,
        current < num_nodes,
    ensures
        best <= num_nodes,
        best == num_nodes ==> forall|q: int| !#[trigger] eligible(demands@, visited@, capacity as int, q),
        best < num_nodes ==> nearest_eligible(
            demands@,
            distance_matrix@,
            visited@,
            capacity as int,
            current as int,
            best as int,
        ),
{
    let ghost dm = distance_matrix@;
    let mut best: usize = num_nodes;
    let mut best_dist: i32 = 0;
    let mut node: usize = 0;
    while node < num_nodes
        invariant
            valid_tables(num_nodes as int, demands@, dm),
            dm == distance_matrix@,
            visited@.len() == num_nodes,
            current < num_nodes,
            node <= num_nodes,
            best == num_nodes || (best < node && eligible(demands@, visited@, capacity as int, best as int)),
            best == num_nodes ==> forall|q: int|
                0 <= q < node ==> !#[trigger] eligible(demands@, visited@, capacity as int, q),
            best != num_nodes ==> best_dist == dm[current as int]@[best as int],
            best != num_nodes ==> forall|q: int|
                0 <= q < node && #[trigger] eligible(demands@, visited@, capacity as int, q) ==> dm[current as int]@[best as int]
                    < dm[current as int]@[q] || (dm[current as int]@[best as int] == dm[current as int]@[q]
                    && best <= q),
        decreases num_nodes - node,
    {
        if !visited[node] && demands[node] <= capacity {
            let d = distance_matrix[current][node];
            if best == num_nodes || d < best_dist {
                best = node;
                best_dist = d;
            }
        }
        node = node + 1;
    }
    best
}


/// The greedy baseline: while some node is unvisited, a vehicle leaves the
/// depot with `max_capacity` and repeatedly moves to the nearest unvisited
/// node whose demand fits what it has left (the lowest index among equally
/// near ones), returning to the depot when none fits. The routes it builds
/// always pass `calc_routes_total_distance`.
pub fn calc_baseline_routes(
    num_nodes: usize,
    max_capacity: i32,
    demands: &Vec<i32>,
    distance_matrix: &Vec<Vec<i32>>,
) -> (r: Result<Vec<Vec<usize>>, RouteError>)
    requires
        valid_tables(num_nodes as int, demands@, distance_matrix@),
        max_capacity >= 1,
        forall|i: int| 1 <= i < num_nodes ==> #[trigger] demands@[i] <= max_capacity,
    ensures
        r matches Ok(routes) && total_distance_of(
            num_nodes as int,
            max_capacity as int,
            demands@,
            distance_matrix@,
            routes@,
        ) is Ok,
        r matches Ok(routes) && feasible(num_nodes as int, max_capacity as int, demands@, routes@),
        r matches Ok(routes) && greedy_routes(
            num_nodes as int,
            max_capacity as int,
            demands@,
            distance_matrix@,
            routes@,
        ),
{
    let ghost cap = max_capacity as int;
    let ghost dm = distance_matrix@;
    let mut routes: Vec<Vec<usize>> = Vec::new();
    let mut visited: Vec<bool> = Vec::new();
    let mut i: usize = 0;
    while i < num_nodes
        invariant
            i <= num_nodes,
            visited@ =~= initial_visits(num_nodes as int).subrange(0, i as int),
        decreases num_nodes - i,
    {
        visited.push(i == 0);
        i = i + 1;
    }
    proof {
        assert(visited@ =~= initial_visits(num_nodes as int));
        lemma_initial_visits(num_nodes as int);
    }
    let mut remaining: usize = num_nodes - 1;
    let ghost mut total: int = 0;
    while remaining > 0
        invariant
            valid_tables(num_nodes as int, demands@, dm),
            dm == distance_matrix@,
            cap == max_capacity as int,
            max_capacity >= 1,
            forall|q: int| 1 <= q < num_nodes ==> #[trigger] demands@[q] <= max_capacity,
            visited@.len() == num_nodes,
            visited@[0],
            remaining + visited_set(visited@).len() == num_nodes,
            eval_routes(cap, demands@, dm, routes@, initial_visits(num_nodes as int))
                == Ok::<(Seq<bool>, int), RouteError>((visited@, total)),
            greedy_routes(num_nodes as int, cap, demands@, dm, routes@),
        decreases remaining,
    {
        proof {
            lemma_routes(num_nodes as int, cap, demands@, dm, routes@);
        }
        let ghost vis0 = visited@;
        let ghost routes0 = routes@;
        let ghost total0 = total;
        let mut route: Vec<usize> = Vec::new();
        route.push(0);
        let mut current: usize = 0;
        let mut capacity: i32 = max_capacity;
        let ghost mut route_total: int = 0;
        let ghost start_remaining = remaining;
        while capacity > 0 && remaining > 0
            invariant
                valid_tables(num_nodes as int, demands@, dm),
                dm == distance_matrix@,
                cap == max_capacity as int,
                max_capacity >= 1,
                forall|q: int| 1 <= q < num_nodes ==> #[trigger] demands@[q] <= max_capacity,
                visited@.len() == num_nodes,
                vis0.len() == num_nodes,
                visited@[0],
                remaining + visited_set(visited@).len() == num_nodes,
                remaining <= start_remaining,
                start_remaining > 0,
                route@.len() >= 1,
                route@[0] == 0,
                route@.len() == 1 ==> capacity == max_capacity,
                current < num_nodes,
                walk(cap, demands@, dm, route@.subrange(1, route@.len() as int), vis0) == Ok::<
                    (Seq<bool>, int, int, int),
                    RouteError,
                >((visited@, capacity as int, route_total, current as int)),
                remaining + route@.len() - 1 == start_remaining,
                vis0 == visits(num_nodes as int, routes0),
                routes@ == routes0,
                greedy_stops(cap, demands@, dm, route@.subrange(1, route@.len() as int), vis0),
                remaining == 0 ==> forall|q: int| 0 <= q < num_nodes ==> #[trigger] visited@[q],
            ensures
                vis0 == visits(num_nodes as int, routes0),
                routes@ == routes0,
                greedy_stops(cap, demands@, dm, route@.subrange(1, route@.len() as int), vis0),
                capacity > 0 ==> forall|y: int| !#[trigger] eligible(demands@, visited@, capacity as int, y),
                route@.len() >= 2,
                route@[0] == 0,
                current < num_nodes,
                walk(cap, demands@, dm, route@.subrange(1, route@.len() as int), vis0) == Ok::<
                    (Seq<bool>, int, int, int),
                    RouteError,
                >((visited@, capacity as int, route_total, current as int)),
                visited@.len() == num_nodes,
                visited@[0],
                remaining + visited_set(visited@).len() == num_nodes,
                remaining < start_remaining,
            decreases remaining,
        {
            let best = nearest_eligible_node(num_nodes, demands, distance_matrix, &visited, current, capacity);
            if best == num_nodes {
                proof {
                    if route@.len() == 1 {
                        assert(exists|q: int| 0 <= q < num_nodes && !visited@[q]) by {
                            lemma_visited_set(visited@);
                        }
                        let q = choose|q: int| 0 <= q < num_nodes && !visited@[q];
                        assert(!eligible(demands@, visited@, capacity as int, q));
                    }
                }
                break;
            }
            proof {
                let s = route@.subrange(1, route@.len() as int);
                lemma_walk(cap, demands@, dm, s, vis0);
                lemma_greedy_extend(cap, demands@, dm, s, vis0, best);
                assert(route@.push(best).subrange(1, route@.len() as int + 1) =~= s.push(best));
                assert(route@.push(best).subrange(1, route@.len() as int + 1).drop_last() =~= s);
                lemma_visited_set_mark(visited@, best as int);
                lemma_visited_set(visited@.update(best as int, true));
                route_total = route_total + dm[current as int]@[best as int];
            }
            capacity = capacity - demands[best];
            route.push(best);
            visited.set(best, true);
            current = best;
            remaining = remaining - 1;
        }
        proof {
            let s = route@.subrange(1, route@.len() as int);
            lemma_walk(cap, demands@, dm, s, vis0);
            assert(greedy_route(cap, demands@, dm, s, vis0));
        }
        let ghost before = route@;
        route.push(0);
        proof {
            assert(inner_nodes(route@) =~= before.subrange(1, before.len() as int));
            assert(well_shaped(route@));
            assert(routes@.push(route).drop_last() =~= routes@);
            total = total + route_total + dm[current as int]@[0];
        }
        routes.push(route);
        proof {
            assert(routes@.drop_last() == routes0);
            assert(routes@.last() == route);
            let m = routes0.len() as int;
            assert(routes@.take(m) =~= routes0);
            assert forall|r: int| 0 <= r < routes@.len() implies greedy_route(
                cap,
                demands@,
                dm,
                inner_nodes(#[trigger] routes@[r]@),
                visits(num_nodes as int, routes@.take(r)),
            ) by {
                if r < m {
                    assert(routes@.take(r) =~= routes0.take(r));
                    assert(routes@[r] == routes0[r]);
                }
            }
        }
    }
    proof {
        lemma_visited_set(visited@);
        lemma_total_distance_decides_feasibility(num_nodes as int, cap, demands@, dm, routes@);
    }
    Ok(routes)
}

} // verus!
