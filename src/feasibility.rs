//! What a feasible solution is, stated without reference to the order of
//! evaluation, and the proof that the evaluator decides exactly that.

use crate::routes::{RouteError, eval_route, eval_routes, initial_visits, inner_nodes, total_distance_of, walk, well_shaped};
use vstd::prelude::*;

verus! {

/// Demand served along `s`.
pub open spec fn load(demands: Seq<i32>, s: Seq<usize>) -> int
    decreases s.len(),
{
    if s.len() == 0 {
        0
    } else {
        load(demands, s.drop_last()) + demands[s.last() as int]
    }
}

/// The last node of `s`, or the depot when `s` is empty.
pub open spec fn last_or_depot(s: Seq<usize>) -> int {
    if s.len() == 0 {
        0
    } else {
        s.last() as int
    }
}

/// Distance from the depot through the nodes of `s` in order.
pub open spec fn path_length(dm: Seq<Vec<i32>>, s: Seq<usize>) -> int
    decreases s.len(),
{
    if s.len() == 0 {
        0
    } else {
        path_length(dm, s.drop_last()) + dm[last_or_depot(s.drop_last())]@[s.last() as int]
    }
}

/// Length of a route: out from the depot, through its customers, and back.
pub open spec fn route_length(dm: Seq<Vec<i32>>, route: Seq<usize>) -> int {
    path_length(dm, inner_nodes(route)) + dm[last_or_depot(inner_nodes(route))]@[0]
}

/// Sum of the lengths of `routes`.
pub open spec fn total_length(dm: Seq<Vec<i32>>, routes: Seq<Vec<usize>>) -> int
    decreases routes.len(),
{
    if routes.len() == 0 {
        0
    } else {
        total_length(dm, routes.drop_last()) + route_length(dm, routes.last()@)
    }
}

/// `(r, k)` names the `k`-th customer of route `r`.
pub open spec fn is_stop(routes: Seq<Vec<usize>>, r: int, k: int) -> bool {
    0 <= r < routes.len() && 0 <= k < inner_nodes(routes[r]@).len()
}

/// The node at stop `(r, k)`.
pub open spec fn stop(routes: Seq<Vec<usize>>, r: int, k: int) -> int {
    inner_nodes(routes[r]@)[k] as int
}

/// Every rule but coverage: each route starts and ends at the depot with a
/// customer between; every stop is a customer of the instance; no node is
/// at two stops; and along each route the demand served never exceeds the
/// capacity.
pub open spec fn respects_rules(num_nodes: int, cap: int, demands: Seq<i32>, routes: Seq<Vec<usize>>) -> bool {
    &&& forall|r: int| 0 <= r < routes.len() ==> well_shaped(#[trigger] routes[r]@)
    &&& forall|r: int, k: int| is_stop(routes, r, k) ==> 1 <= #[trigger] stop(routes, r, k) < num_nodes
    &&& forall|r1: int, k1: int, r2: int, k2: int|
        is_stop(routes, r1, k1) && is_stop(routes, r2, k2) && #[trigger] stop(routes, r1, k1)
            == #[trigger] stop(routes, r2, k2) ==> r1 == r2 && k1 == k2
    &&& forall|r: int, k: int|
        is_stop(routes, r, k) ==> #[trigger] load(demands, inner_nodes(routes[r]@).take(k + 1)) <= cap
}

/// Node `c` is at some stop.
pub open spec fn at_some_stop(routes: Seq<Vec<usize>>, c: int) -> bool {
    exists|r: int, k: int| is_stop(routes, r, k) && #[trigger] stop(routes, r, k) == c
}

/// Every customer is at some stop.
pub open spec fn covers(num_nodes: int, routes: Seq<Vec<usize>>) -> bool {
    forall|c: int| 1 <= c < num_nodes ==> #[trigger] at_some_stop(routes, c)
}

/// A feasible solution.
pub open spec fn feasible(num_nodes: int, cap: int, demands: Seq<i32>, routes: Seq<Vec<usize>>) -> bool {
    respects_rules(num_nodes, cap, demands, routes) && covers(num_nodes, routes)
}

/// Conditions under which walking `inner` from flags `v` succeeds.
pub open spec fn walk_ok(cap: int, demands: Seq<i32>, inner: Seq<usize>, v: Seq<bool>) -> bool {
    forall|k: int|
        0 <= k < inner.len() ==> {
            &&& (#[trigger] inner[k]) < v.len()
            &&& !v[inner[k] as int]
            &&& forall|j: int| 0 <= j < k ==> inner[j] != inner[k]
            &&& load(demands, inner.take(k + 1)) <= cap
        }
}

/// Flags `v` with every node of `s` set.
pub open spec fn mark(v: Seq<bool>, s: Seq<usize>) -> Seq<bool> {
    Seq::new(v.len(), |i: int| v[i] || holds(s, i))
}

/// Node `i` occurs in `s`.
pub open spec fn holds(s: Seq<usize>, i: int) -> bool {
    exists|k: int| 0 <= k < s.len() && #[trigger] s[k] as int == i
}

/// Flags after `routes`: the depot and every node at a stop.
pub open spec fn visits(num_nodes: int, routes: Seq<Vec<usize>>) -> Seq<bool> {
    Seq::new(
        num_nodes as nat,
        |i: int| i == 0 || at_some_stop(routes, i),
    )
}

/// Node `y` is unvisited in `v` and its demand fits in capacity `c`.
pub open spec fn eligible(demands: Seq<i32>, v: Seq<bool>, c: int, y: int) -> bool {
    0 <= y < v.len() && !v[y] && demands[y] <= c
}

/// `x` is the eligible node nearest to `prev`, the lowest index among equally near ones.
pub open spec fn nearest_eligible(
    demands: Seq<i32>,
    dm: Seq<Vec<i32>>,
    v: Seq<bool>,
    c: int,
    prev: int,
    x: int,
) -> bool {
    &&& eligible(demands, v, c, x)
    &&& forall|y: int|
        #[trigger] eligible(demands, v, c, y) ==> dm[prev]@[x] < dm[prev]@[y] || (dm[prev]@[x]
            == dm[prev]@[y] && x <= y)
}

/// The customers `inner` of a route are what the greedy rule picks from
/// flags `v`: while capacity is left, the nearest eligible node next; the
/// route closes once capacity is spent or no node is eligible.
pub open spec fn greedy_route(cap: int, demands: Seq<i32>, dm: Seq<Vec<i32>>, inner: Seq<usize>, v: Seq<bool>) -> bool {
    &&& greedy_stops(cap, demands, dm, inner, v)
    &&& cap - load(demands, inner) > 0 ==> forall|y: int|
        !#[trigger] eligible(demands, mark(v, inner), cap - load(demands, inner), y)
}

/// Each customer of `inner` is picked with capacity left, as the nearest
/// eligible node from the one before.
pub open spec fn greedy_stops(cap: int, demands: Seq<i32>, dm: Seq<Vec<i32>>, inner: Seq<usize>, v: Seq<bool>) -> bool {
    forall|k: int|
        0 <= k < inner.len() ==> cap - load(demands, inner.take(k)) > 0 && nearest_eligible(
            demands,
            dm,
            mark(v, inner.take(k)),
            cap - load(demands, inner.take(k)),
            last_or_depot(inner.take(k)),
            #[trigger] inner[k] as int,
        )
}

/// Each route is the greedy one from what the earlier routes visited.
pub open spec fn greedy_routes(num_nodes: int, cap: int, demands: Seq<i32>, dm: Seq<Vec<i32>>, routes: Seq<Vec<usize>>) -> bool {
    forall|r: int|
        0 <= r < routes.len() ==> greedy_route(
            cap,
            demands,
            dm,
            inner_nodes(#[trigger] routes[r]@),
            visits(num_nodes, routes.take(r)),
        )
}

/// Picking the nearest eligible node extends a greedy prefix.
pub(crate) proof fn lemma_greedy_extend(
    cap: int,
    demands: Seq<i32>,
    dm: Seq<Vec<i32>>,
    s: Seq<usize>,
    v: Seq<bool>,
    x: usize,
)
    requires
        greedy_stops(cap, demands, dm, s, v),
        cap - load(demands, s) > 0,
        nearest_eligible(demands, dm, mark(v, s), cap - load(demands, s), last_or_depot(s), x as int),
    ensures
        greedy_stops(cap, demands, dm, s.push(x), v),
{
    let s2 = s.push(x);
    assert(s2.take(s.len() as int) =~= s);
    assert forall|k: int| 0 <= k < s2.len() implies cap - load(demands, s2.take(k)) > 0 && nearest_eligible(
        demands,
        dm,
        mark(v, s2.take(k)),
        cap - load(demands, s2.take(k)),
        last_or_depot(s2.take(k)),
        #[trigger] s2[k] as int,
    ) by {
        if k < s.len() {
            assert(s2.take(k) =~= s.take(k));
            assert(s2[k] == s[k]);
            assert(greedy_stops(cap, demands, dm, s, v));
            assert(cap - load(demands, s.take(k)) > 0);
        } else {
            assert(k == s.len());
            assert(s2[k] == x);
        }
    }
    assert(greedy_stops(cap, demands, dm, s2, v));
}

pub(crate) proof fn lemma_walk(cap: int, demands: Seq<i32>, dm: Seq<Vec<i32>>, inner: Seq<usize>, v: Seq<bool>)
    ensures
        walk(cap, demands, dm, inner, v) is Ok <==> walk_ok(cap, demands, inner, v),
        walk_ok(cap, demands, inner, v) ==> walk(cap, demands, dm, inner, v) == Ok::<
            (Seq<bool>, int, int, int),
            RouteError,
        >((mark(v, inner), cap - load(demands, inner), path_length(dm, inner), last_or_depot(inner))),
    decreases inner.len(),
{
    if inner.len() == 0 {
        assert(mark(v, inner) =~= v);
    } else {
        let s = inner.drop_last();
        let x = inner.last();
        let n = inner.len() - 1;
        lemma_walk(cap, demands, dm, s, v);
        assert forall|k: int| 0 <= k < n implies #[trigger] inner.take(k + 1) == s.take(k + 1) by {
            assert(inner.take(k + 1) =~= s.take(k + 1));
        }
        assert(inner.take(n + 1) =~= inner);
        if walk_ok(cap, demands, inner, v) {
            assert forall|k: int| 0 <= k < s.len() implies {
                &&& (#[trigger] s[k]) < v.len()
                &&& !v[s[k] as int]
                &&& forall|j: int| 0 <= j < k ==> s[j] != s[k]
                &&& load(demands, s.take(k + 1)) <= cap
            } by {
                assert(inner[k] == s[k]);
                assert(forall|j: int| 0 <= j < k ==> inner[j] == s[j]);
            }
            assert(walk_ok(cap, demands, s, v));
            assert(inner[n] == x);
            assert(!holds(s, x as int)) by {
                if holds(s, x as int) {
                    let j = choose|j: int| 0 <= j < s.len() && #[trigger] s[j] as int == x as int;
                    assert(inner[j] == x);
                }
            }
            assert(mark(v, s).update(x as int, true) =~= mark(v, inner)) by {
                assert forall|i: int| 0 <= i < v.len() implies #[trigger] mark(v, inner)[i] == (
                mark(v, s).update(x as int, true))[i] by {
                    if holds(inner, i) && i != x {
                        let j = choose|j: int| 0 <= j < inner.len() && #[trigger] inner[j] as int == i;
                        assert(j != n);
                        assert(s[j] == inner[j]);
                    }
                    if holds(s, i) {
                        let j = choose|j: int| 0 <= j < s.len() && #[trigger] s[j] as int == i;
                        assert(inner[j] == s[j]);
                    }
                    if i == x {
                        assert(inner[n] == x);
                    }
                }
            }
        } else if walk_ok(cap, demands, s, v) {
            let k = choose|k: int|
                0 <= k < inner.len() && !({
                    &&& (#[trigger] inner[k]) < v.len()
                    &&& !v[inner[k] as int]
                    &&& forall|j: int| 0 <= j < k ==> inner[j] != inner[k]
                    &&& load(demands, inner.take(k + 1)) <= cap
                });
            if k < n {
                assert(inner[k] == s[k]);
                assert(forall|j: int| 0 <= j < k ==> inner[j] == s[j]);
                assert(false);
            } else {
                assert(k == n);
                if x < v.len() && !v[x as int] && (forall|j: int| 0 <= j < k ==> inner[j] != inner[k]) {
                    assert(!mark(v, s)[x as int]) by {
                        if holds(s, x as int) {
                            let j = choose|j: int| 0 <= j < s.len() && #[trigger] s[j] as int == x as int;
                            assert(inner[j] == x);
                        }
                    }
                }
            }
        }
    }
}

proof fn lemma_rules_restrict(num_nodes: int, cap: int, demands: Seq<i32>, routes: Seq<Vec<usize>>)
    requires
        routes.len() > 0,
        respects_rules(num_nodes, cap, demands, routes),
    ensures
        respects_rules(num_nodes, cap, demands, routes.drop_last()),
{
    let p = routes.drop_last();
    assert forall|r: int| 0 <= r < p.len() implies well_shaped(#[trigger] p[r]@) by {
        assert(p[r] == routes[r]);
    }
    assert forall|r: int, k: int| is_stop(p, r, k) implies 1 <= #[trigger] stop(p, r, k) < num_nodes by {
        assert(p[r] == routes[r]);
        assert(is_stop(routes, r, k));
        assert(stop(p, r, k) == stop(routes, r, k));
    }
    assert forall|r1: int, k1: int, r2: int, k2: int|
        is_stop(p, r1, k1) && is_stop(p, r2, k2) && #[trigger] stop(p, r1, k1) == #[trigger] stop(
            p,
            r2,
            k2,
        ) implies r1 == r2 && k1 == k2 by {
        assert(p[r1] == routes[r1]);
        assert(p[r2] == routes[r2]);
        assert(stop(p, r1, k1) == stop(routes, r1, k1));
        assert(stop(p, r2, k2) == stop(routes, r2, k2));
        assert(is_stop(routes, r1, k1) && is_stop(routes, r2, k2));
    }
    assert forall|r: int, k: int| is_stop(p, r, k) implies #[trigger] load(
        demands,
        inner_nodes(p[r]@).take(k + 1),
    ) <= cap by {
        assert(p[r] == routes[r]);
        assert(is_stop(routes, r, k));
    }
}

pub(crate) proof fn lemma_routes(num_nodes: int, cap: int, demands: Seq<i32>, dm: Seq<Vec<i32>>, routes: Seq<Vec<usize>>)
    requires
        num_nodes >= 1,
    ensures
        eval_routes(cap, demands, dm, routes, initial_visits(num_nodes)) is Ok <==> respects_rules(
            num_nodes,
            cap,
            demands,
            routes,
        ),
        respects_rules(num_nodes, cap, demands, routes) ==> eval_routes(
            cap,
            demands,
            dm,
            routes,
            initial_visits(num_nodes),
        ) == Ok::<(Seq<bool>, int), RouteError>((visits(num_nodes, routes), total_length(dm, routes))),
    decreases routes.len(),
{
    if routes.len() == 0 {
        assert(visits(num_nodes, routes) =~= initial_visits(num_nodes));
        return;
    }
    let p = routes.drop_last();
    let route = routes.last();
    let m = p.len() as int;
    let inner = inner_nodes(route@);
    lemma_routes(num_nodes, cap, demands, dm, p);
    assert(routes[m] == route);
    assert forall|r: int| 0 <= r < m implies #[trigger] routes[r] == p[r] by {}
    if respects_rules(num_nodes, cap, demands, routes) {
        lemma_rules_restrict(num_nodes, cap, demands, routes);
    }
    if !respects_rules(num_nodes, cap, demands, p) {
        return;
    }
    let v = visits(num_nodes, p);
    lemma_walk(cap, demands, dm, inner, v);
    assert forall|k: int| 0 <= k < inner.len() implies #[trigger] stop(routes, m, k) == inner[k] as int
        && is_stop(routes, m, k) by {}
    if respects_rules(num_nodes, cap, demands, routes) {
        assert(well_shaped(routes[m]@));
        assert forall|k: int| 0 <= k < inner.len() implies {
            &&& (#[trigger] inner[k]) < v.len()
            &&& !v[inner[k] as int]
            &&& forall|j: int| 0 <= j < k ==> inner[j] != inner[k]
            &&& load(demands, inner.take(k + 1)) <= cap
        } by {
            assert(is_stop(routes, m, k));
            assert(1 <= stop(routes, m, k) < num_nodes);
            if at_some_stop(p, inner[k] as int) {
                let (r, q) = choose|r: int, q: int| is_stop(p, r, q) && #[trigger] stop(p, r, q) == inner[k] as int;
                assert(p[r] == routes[r]);
                assert(stop(routes, r, q) == stop(p, r, q));
                assert(is_stop(routes, r, q));
                assert(stop(routes, r, q) == stop(routes, m, k));
            }
            assert forall|j: int| 0 <= j < k implies inner[j] != inner[k] by {
                assert(is_stop(routes, m, j));
                assert(stop(routes, m, j) == inner[j] as int);
            }
            assert(load(demands, inner_nodes(routes[m]@).take(k + 1)) <= cap);
        }
    }
    if well_shaped(route@) && walk_ok(cap, demands, inner, v) {
        assert forall|r: int| 0 <= r < routes.len() implies well_shaped(#[trigger] routes[r]@) by {
            if r < m {
                assert(routes[r] == p[r]);
            }
        }
        assert(v[0]);
        assert forall|r: int, k: int| is_stop(routes, r, k) implies 1 <= #[trigger] stop(routes, r, k)
            < num_nodes by {
            if r < m {
                assert(is_stop(p, r, k) && stop(p, r, k) == stop(routes, r, k));
            } else {
                assert(inner[k] < v.len() && !v[inner[k] as int]);
            }
        }
        assert forall|r1: int, k1: int, r2: int, k2: int|
            is_stop(routes, r1, k1) && is_stop(routes, r2, k2) && #[trigger] stop(routes, r1, k1)
                == #[trigger] stop(routes, r2, k2) implies r1 == r2 && k1 == k2 by {
            if r1 < m && r2 < m {
                assert(is_stop(p, r1, k1) && stop(p, r1, k1) == stop(routes, r1, k1));
                assert(is_stop(p, r2, k2) && stop(p, r2, k2) == stop(routes, r2, k2));
            } else if r1 == m && r2 == m {
                if k1 < k2 {
                    assert(inner[k1] != inner[k2]);
                } else if k2 < k1 {
                    assert(inner[k2] != inner[k1]);
                }
            } else if r1 == m {
                assert(is_stop(p, r2, k2) && stop(p, r2, k2) == stop(routes, r2, k2));
                assert(at_some_stop(p, inner[k1] as int));
                assert(!v[inner[k1] as int]);
            } else {
                assert(is_stop(p, r1, k1) && stop(p, r1, k1) == stop(routes, r1, k1));
                assert(at_some_stop(p, inner[k2] as int));
                assert(!v[inner[k2] as int]);
            }
        }
        assert forall|r: int, k: int| is_stop(routes, r, k) implies #[trigger] load(
            demands,
            inner_nodes(routes[r]@).take(k + 1),
        ) <= cap by {
            if r < m {
                assert(is_stop(p, r, k));
                assert(routes[r] == p[r]);
            } else {
                assert(inner[k] == inner[k]);
            }
        }
        assert(respects_rules(num_nodes, cap, demands, routes));
        assert(mark(v, inner) =~= visits(num_nodes, routes)) by {
            assert forall|i: int| 0 <= i < num_nodes implies #[trigger] mark(v, inner)[i] == visits(
                num_nodes,
                routes,
            )[i] by {
                if holds(inner, i) {
                    let k = choose|k: int| 0 <= k < inner.len() && #[trigger] inner[k] as int == i;
                    assert(stop(routes, m, k) == i);
                    assert(at_some_stop(routes, i));
                }
                if at_some_stop(p, i) {
                    let (r, q) = choose|r: int, q: int| is_stop(p, r, q) && #[trigger] stop(p, r, q) == i;
                    assert(stop(routes, r, q) == stop(p, r, q));
                    assert(at_some_stop(routes, i));
                }
                if at_some_stop(routes, i) {
                    let (r, q) = choose|r: int, q: int| is_stop(routes, r, q) && #[trigger] stop(routes, r, q) == i;
                    if r < m {
                        assert(stop(routes, r, q) == stop(p, r, q));
                        assert(at_some_stop(p, i));
                    } else {
                        assert(inner[q] as int == i);
                        assert(holds(inner, i));
                    }
                }
            }
        }
    }
}

/// The evaluator accepts exactly the solutions whose routes keep every rule
/// and visit every customer, and then returns the sum of their lengths;
/// otherwise it reports a violation.
pub proof fn lemma_total_distance_decides_feasibility(
    num_nodes: int,
    cap: int,
    demands: Seq<i32>,
    dm: Seq<Vec<i32>>,
    routes: Seq<Vec<usize>>,
)
    requires
        num_nodes >= 1,
    ensures
        total_distance_of(num_nodes, cap, demands, dm, routes) is Ok <==> feasible(
            num_nodes,
            cap,
            demands,
            routes,
        ),
        feasible(num_nodes, cap, demands, routes) ==> total_distance_of(
            num_nodes,
            cap,
            demands,
            dm,
            routes,
        ) == Ok::<int, RouteError>(total_length(dm, routes)),
{
    lemma_routes(num_nodes, cap, demands, dm, routes);
    if respects_rules(num_nodes, cap, demands, routes) {
        let v = visits(num_nodes, routes);
        let acc = eval_routes(cap, demands, dm, routes, initial_visits(num_nodes));
        assert(acc == Ok::<(Seq<bool>, int), RouteError>((v, total_length(dm, routes))));
        assert(acc->Ok_0.0 == v);
        if covers(num_nodes, routes) {
            assert forall|i: int| 0 <= i < num_nodes implies #[trigger] v[i] by {
                if i >= 1 {
                    assert(at_some_stop(routes, i));
                }
            }
            assert(total_distance_of(num_nodes, cap, demands, dm, routes) == Ok::<int, RouteError>(
                total_length(dm, routes),
            ));
        } else {
            let c = choose|c: int| 1 <= c < num_nodes && !#[trigger] at_some_stop(routes, c);
            assert(!v[c]);
            assert(!(forall|i: int| 0 <= i < num_nodes ==> #[trigger] acc->Ok_0.0[i]));
            assert(total_distance_of(num_nodes, cap, demands, dm, routes) is Err);
        }
    }
}

} // verus!
