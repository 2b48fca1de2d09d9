//! The bookkeeping that the best-first searches share.
//!
//! Such a search keeps a frontier of routes that wait to be expanded and a
//! table of the routes by which each node was reached most cheaply. It pushes
//! a route to a node only where that route is cheaper than what the table
//! holds for the node. The proofs follow, beside these two, the set of
//! `(node, cost)` pairs that have been taken off the frontier.

use super::cost::HasZero;
use super::result::{Route, routes, SearchResult};
use super::walk::{
    enumerates, is_walk, lemma_distinct_bound, lemma_walk_prefix, lemma_walk_push,
    lemma_walk_take_next, records_walk, step, walk_cost,
};
use vstd::laws_eq::obeys_concrete_eq;
use vstd::prelude::*;
use vstd::std_specs::cmp::PartialEqSpec;

verus! {

/// Some route of `list` ends at `node` and costs at most `bound`.
pub open spec fn known<N>(list: Seq<Route<N>>, node: N, bound: nat) -> bool {
    exists|j: int| 0 <= j < list.len() && (#[trigger] list[j]).node == node && list[j].cost <= bound
}

/// Some route of `list` costs at most `bound`.
pub open spec fn some_within<N>(list: Seq<Route<N>>, bound: nat) -> bool {
    exists|j: int| 0 <= j < list.len() && (#[trigger] list[j]).cost <= bound
}

/// `cost` is lower than the cost of every route of `table` that ends at
/// `node`.
pub open spec fn improves<N>(table: Seq<Route<N>>, node: N, cost: nat) -> bool {
    forall|j: int| 0 <= j < table.len() && (#[trigger] table[j]).node == node ==> cost < table[j].cost
}

/// No two routes of `table` end at the same node.
pub open spec fn distinct_nodes<N>(table: Seq<Route<N>>) -> bool {
    forall|i: int, j: int|
        0 <= i < j < table.len() ==> (#[trigger] table[i]).node != (#[trigger] table[j]).node
}

/// Whether some route of `table` ends at `node`.
pub open spec fn reaches<N>(table: Seq<Route<N>>, node: N) -> bool {
    exists|j: int| 0 <= j < table.len() && (#[trigger] table[j]).node == node
}

/// What a successful offer does to the table: the route replaces the one
/// that ended at the same node, or is added where there was none.
pub open spec fn records_offer<N>(before: Seq<Route<N>>, after: Seq<Route<N>>, offer: Route<N>) -> bool {
    if reaches(before, offer.node) {
        exists|j: int|
            0 <= j < before.len() && (#[trigger] before[j]).node == offer.node && after
                == before.update(j, offer)
    } else {
        after == before.push(offer)
    }
}

/// The table once `candidate` has been offered to it and taken: it replaces
/// the route to its node if it is cheaper, and is added if there was none.
/// `None` where the table declines.
pub open spec fn offered<N>(table: Seq<Route<N>>, candidate: Route<N>) -> Option<Seq<Route<N>>> {
    if reaches(table, candidate.node) {
        let j = choose|j: int| 0 <= j < table.len() && (#[trigger] table[j]).node == candidate.node;
        if candidate.cost < table[j].cost {
            Some(table.update(j, candidate))
        } else {
            None
        }
    } else {
        Some(table.push(candidate))
    }
}

/// The sum of the costs of the routes of `table`.
pub open spec fn cost_sum<N>(table: Seq<Route<N>>) -> nat
    decreases table.len(),
{
    if table.len() == 0 {
        0
    } else {
        cost_sum(table.drop_last()) + table.last().cost
    }
}

/// The position of the first of the lowest numbers of `keys`.
pub open spec fn first_least(keys: Seq<int>) -> int
    decreases keys.len(),
{
    if keys.len() <= 1 {
        0
    } else {
        let before = first_least(keys.drop_last());
        if keys.last() < keys[before] {
            keys.len() - 1
        } else {
            before
        }
    }
}

/// The position in `table` of the result that ends at `node`.
pub fn find_node<N: Copy + PartialEq, C: HasZero>(
    table: &Vec<SearchResult<N, C>>,
    node: N,
) -> (found: Option<usize>)
    requires
        obeys_concrete_eq::<N>(),
    ensures
        match found {
            Some(j) => j < table.len() && table[j as int].node == node && forall|k: int|
                0 <= k < j ==> (#[trigger] table[k]).node != node,
            None => !reaches(routes(table@), node),
        },
{
    proof {
        reveal(obeys_concrete_eq);
    }
    let mut i: usize = 0;
    while i < table.len()
        invariant
            i <= table.len(),
            N::obeys_eq_spec(),
            forall|a: N, b: N| a.eq_spec(&b) <==> a == b,
            forall|j: int| 0 <= j < i ==> (#[trigger] table[j]).node != node,
        decreases table.len() - i,
    {
        if table[i].node == node {
            return Some(i);
        }
        i += 1;
    }
    assert forall|j: int| 0 <= j < routes(table@).len() implies (#[trigger] routes(table@)[j]).node
        != node by {
        assert(table[j].node != node);
    }
    None
}

/// Offers the table the route that follows `parent` and then the edge of
/// cost `edge_cost` to `child`. The table takes it where it knows no route to
/// `child`, or only a dearer one, and the route is handed back for the
/// frontier; else the table stays as it is.
pub fn relax<N: Copy + PartialEq, C: HasZero>(
    parent: &SearchResult<N, C>,
    child: N,
    edge_cost: C,
    table: &mut Vec<SearchResult<N, C>>,
) -> (offer: Option<SearchResult<N, C>>)
    requires
        obeys_concrete_eq::<N>(),
        parent.cost.value() + edge_cost.value() <= C::limit(),
        distinct_nodes(routes(old(table)@)),
    ensures
        match offer {
            Some(route) => {
                &&& route@ == (Route {
                    node: child,
                    cost: parent.cost.value() + edge_cost.value(),
                    path: parent.path@.push(child),
                })
                &&& improves(routes(old(table)@), child, route@.cost)
                &&& records_offer(routes(old(table)@), routes(final(table)@), route@)
            },
            None => {
                &&& final(table)@ == old(table)@
                &&& known(routes(old(table)@), child, parent.cost.value() + edge_cost.value())
            },
        },
{
    let ghost before = routes(table@);
    let cost = parent.cost.plus(edge_cost);
    match find_node(table, child) {
        Some(j) => {
            if cost.less(table[j].cost) {
                table[j] = parent.step_to(child, cost);
                proof {
                    let after = routes(table@);
                    let stored = after[j as int];
                    assert(before[j as int].node == child);
                    assert(after =~= before.update(j as int, stored));
                    assert forall|k: int|
                        0 <= k < before.len() && (#[trigger] before[k]).node
                            == child implies cost.value() < before[k].cost by {
                        if k < j {
                            assert(before[k].node != before[j as int].node);
                        } else if k > j {
                            assert(before[j as int].node != before[k].node);
                        }
                    }
                }
                Some(parent.step_to(child, cost))
            } else {
                assert(before[j as int].node == child && before[j as int].cost <= cost.value());
                None
            }
        },
        None => {
            table.push(parent.step_to(child, cost));
            proof {
                let after = routes(table@);
                assert(after =~= before.push(after[before.len() as int]));
            }
            Some(parent.step_to(child, cost))
        },
    }
}

/// Some pair taken off the frontier is `node` at a cost of at most `bound`.
pub open spec fn done<N>(expanded: Set<(N, nat)>, node: N, bound: nat) -> bool {
    exists|c: nat| #[trigger] expanded.contains((node, c)) && c <= bound
}

/// `node` at cost `bound` is accounted for: a route to it that costs no more
/// waits on the frontier or has been taken off it.
pub open spec fn handled<N>(
    frontier: Seq<Route<N>>,
    expanded: Set<(N, nat)>,
    node: N,
    bound: nat,
) -> bool {
    known(frontier, node, bound) || done(expanded, node, bound)
}

/// The cost of the first `k + 1` nodes of `p`.
pub open spec fn prefix_cost<N, C: HasZero>(
    edges: spec_fn(N, N) -> Option<C>,
    p: Seq<N>,
    k: int,
) -> nat {
    walk_cost(edges, p.take(k + 1))
}

/// The table knows every node of `p` at no more than what `p` costs up to
/// that node.
pub open spec fn covered<N, C: HasZero>(
    edges: spec_fn(N, N) -> Option<C>,
    table: Seq<Route<N>>,
    p: Seq<N>,
) -> bool {
    forall|k: int| 0 <= k < p.len() ==> #[trigger] known(table, p[k], prefix_cost(edges, p, k))
}

/// A route that may wait on the frontier: a walk from `start` that visits
/// no node twice, recorded with its cost, and covered by the table.
pub open spec fn sound<N, C: HasZero>(
    edges: spec_fn(N, N) -> Option<C>,
    start: N,
    table: Seq<Route<N>>,
    route: Route<N>,
) -> bool {
    &&& records_walk(edges, start, route)
    &&& route.path.no_duplicates()
    &&& covered(edges, table, route.path)
}

/// A route that the table may hold: a walk from `start` that visits no node
/// twice, recorded with its cost.
pub open spec fn direct<N, C: HasZero>(
    edges: spec_fn(N, N) -> Option<C>,
    start: N,
    route: Route<N>,
) -> bool {
    &&& records_walk(edges, start, route)
    &&& route.path.no_duplicates()
}

/// The frontier and the table of a search from `start`, as far as single
/// routes go: frontier routes are sound, table routes are direct, one for a
/// node.
pub open spec fn orderly<N, C: HasZero>(
    edges: spec_fn(N, N) -> Option<C>,
    start: N,
    frontier: Seq<Route<N>>,
    table: Seq<Route<N>>,
) -> bool {
    &&& forall|i: int| 0 <= i < frontier.len() ==> sound(edges, start, table, #[trigger] frontier[i])
    &&& forall|j: int| 0 <= j < table.len() ==> direct(edges, start, #[trigger] table[j])
    &&& distinct_nodes(table)
}

/// Nothing has been lost: the start is accounted for, so is the far end of
/// every edge that leaves a pair of `closed`, and so is every route of the
/// table. `closed` holds the pairs whose edges have all been offered;
/// `expanded` may hold one pair more, the one whose edges are being offered.
pub open spec fn tracks<N, C: HasZero>(
    edges: spec_fn(N, N) -> Option<C>,
    start: N,
    frontier: Seq<Route<N>>,
    table: Seq<Route<N>>,
    closed: Set<(N, nat)>,
    expanded: Set<(N, nat)>,
) -> bool {
    &&& handled(frontier, expanded, start, 0)
    &&& forall|u: N, c: nat, w: N|
        #[trigger] closed.contains((u, c)) && (#[trigger] edges(u, w)) is Some ==> handled(
            frontier,
            expanded,
            w,
            c + step(edges, u, w),
        )
    &&& forall|j: int|
        0 <= j < table.len() ==> handled(frontier, expanded, (#[trigger] table[j]).node, table[j].cost)
}

/// A route that takes the place of another changes the sum by the
/// difference of their costs.
pub proof fn lemma_cost_sum_update<N>(table: Seq<Route<N>>, j: int, route: Route<N>)
    requires
        0 <= j < table.len(),
    ensures
        cost_sum(table.update(j, route)) + table[j].cost == cost_sum(table) + route.cost,
    decreases table.len(),
{
    let after = table.update(j, route);
    if j == table.len() - 1 {
        assert(after.drop_last() =~= table.drop_last());
    } else {
        lemma_cost_sum_update(table.drop_last(), j, route);
        assert(after.drop_last() =~= table.drop_last().update(j, route));
    }
}

/// `first_least` is a position of `keys`.
pub proof fn lemma_first_least_in_range(keys: Seq<int>)
    requires
        keys.len() >= 1,
    ensures
        0 <= first_least(keys) < keys.len(),
    decreases keys.len(),
{
    if keys.len() > 1 {
        lemma_first_least_in_range(keys.drop_last());
    }
}

/// `first_least` is the one position whose number none undercuts and none
/// before it matches.
pub proof fn lemma_first_least(keys: Seq<int>, best: int)
    requires
        0 <= best < keys.len(),
        forall|j: int| 0 <= j < keys.len() ==> keys[best] <= #[trigger] keys[j],
        forall|j: int| 0 <= j < best ==> keys[best] < #[trigger] keys[j],
    ensures
        first_least(keys) == best,
    decreases keys.len(),
{
    if keys.len() > 1 {
        let shorter = keys.drop_last();
        let last = keys.len() - 1;
        if best == last {
            lemma_first_least_in_range(shorter);
            let before = first_least(shorter);
            assert(keys[before] == shorter[before]);
        } else {
            assert forall|j: int| 0 <= j < shorter.len() implies shorter[best] <= #[trigger] shorter[j] by {
                assert(shorter[j] == keys[j]);
            }
            assert forall|j: int| 0 <= j < best implies shorter[best] < #[trigger] shorter[j] by {
                assert(shorter[j] == keys[j]);
            }
            lemma_first_least(shorter, best);
        }
    }
}

/// What `relax` does to a table in which no node occurs twice is what
/// `offered` says.
pub proof fn lemma_offered<N>(
    table: Seq<Route<N>>,
    after: Seq<Route<N>>,
    candidate: Route<N>,
    taken: bool,
)
    requires
        distinct_nodes(table),
        taken ==> improves(table, candidate.node, candidate.cost) && records_offer(
            table,
            after,
            candidate,
        ),
        !taken ==> known(table, candidate.node, candidate.cost),
    ensures
        offered(table, candidate) == (if taken {
            Some(after)
        } else {
            None
        }),
{
    if reaches(table, candidate.node) {
        let j = choose|j: int| 0 <= j < table.len() && (#[trigger] table[j]).node == candidate.node;
        if taken {
            let k = choose|k: int|
                0 <= k < table.len() && (#[trigger] table[k]).node == candidate.node && after
                    == table.update(k, candidate);
            if k < j {
                assert(table[k].node != table[j].node);
            } else if j < k {
                assert(table[j].node != table[k].node);
            }
        } else {
            let k = choose|k: int|
                0 <= k < table.len() && (#[trigger] table[k]).node == candidate.node
                    && table[k].cost <= candidate.cost;
            if k < j {
                assert(table[k].node != table[j].node);
            } else if j < k {
                assert(table[j].node != table[k].node);
            }
        }
    } else {
        if !taken {
            let k = choose|k: int|
                0 <= k < table.len() && (#[trigger] table[k]).node == candidate.node
                    && table[k].cost <= candidate.cost;
            assert(reaches(table, table[k].node));
        }
    }
}

/// A table that takes an offer grows by a route or gets cheaper.
pub proof fn lemma_offered_weight<N>(table: Seq<Route<N>>, candidate: Route<N>)
    ensures
        offered(table, candidate) matches Some(after) ==> after.len() == table.len() + 1 || (
        after.len() == table.len() && cost_sum(after) < cost_sum(table)),
{
    if reaches(table, candidate.node) {
        let j = choose|j: int| 0 <= j < table.len() && (#[trigger] table[j]).node == candidate.node;
        lemma_cost_sum_update(table, j, candidate);
    }
}

/// What the table knew before an offer it still knows after it.
pub proof fn lemma_known_after_offer<N>(
    before: Seq<Route<N>>,
    after: Seq<Route<N>>,
    offer: Route<N>,
    node: N,
    bound: nat,
)
    requires
        improves(before, offer.node, offer.cost),
        records_offer(before, after, offer),
        known(before, node, bound),
    ensures
        known(after, node, bound),
{
    let j = choose|j: int| 0 <= j < before.len() && (#[trigger] before[j]).node == node && before[j].cost <= bound;
    if reaches(before, offer.node) {
        let k = choose|k: int|
            0 <= k < before.len() && (#[trigger] before[k]).node == offer.node && after
                == before.update(k, offer);
        assert(after[j].node == node && after[j].cost <= bound);
    } else {
        assert(after[j] == before[j]);
    }
}

/// A walk that the table covered before an offer is covered after it.
pub proof fn lemma_covered_after_offer<N, C: HasZero>(
    edges: spec_fn(N, N) -> Option<C>,
    before: Seq<Route<N>>,
    after: Seq<Route<N>>,
    offer: Route<N>,
    p: Seq<N>,
)
    requires
        improves(before, offer.node, offer.cost),
        records_offer(before, after, offer),
        covered(edges, before, p),
    ensures
        covered(edges, after, p),
{
    assert forall|k: int| 0 <= k < p.len() implies #[trigger] known(
        after,
        p[k],
        prefix_cost(edges, p, k),
    ) by {
        assert(known(before, p[k], prefix_cost(edges, p, k)));
        lemma_known_after_offer(before, after, offer, p[k], prefix_cost(edges, p, k));
    }
}

/// A cheaper route to a node does not pass through that node: a walk that
/// the table covers holds no node to which a route cheaper than all the
/// table's would lead from its end.
pub proof fn lemma_offer_leaves_path<N, C: HasZero>(
    edges: spec_fn(N, N) -> Option<C>,
    table: Seq<Route<N>>,
    p: Seq<N>,
    child: N,
    cost: nat,
)
    requires
        is_walk(edges, p),
        covered(edges, table, p),
        improves(table, child, cost),
        walk_cost(edges, p) <= cost,
    ensures
        !p.contains(child),
{
    if p.contains(child) {
        let k = choose|k: int| 0 <= k < p.len() && p[k] == child;
        assert(known(table, p[k], prefix_cost(edges, p, k)));
        lemma_walk_prefix(edges, p, k + 1);
    }
}

/// Taking a route off the frontier and noting it as expanded leaves every
/// node accounted for that was so before.
pub proof fn lemma_handled_after_pop<N>(
    frontier: Seq<Route<N>>,
    expanded: Set<(N, nat)>,
    i: int,
    node: N,
    bound: nat,
)
    requires
        0 <= i < frontier.len(),
        handled(frontier, expanded, node, bound),
    ensures
        handled(
            frontier.remove(i),
            expanded.insert((frontier[i].node, frontier[i].cost)),
            node,
            bound,
        ),
{
    let rest = frontier.remove(i);
    let more = expanded.insert((frontier[i].node, frontier[i].cost));
    if known(frontier, node, bound) {
        let j = choose|j: int|
            0 <= j < frontier.len() && (#[trigger] frontier[j]).node == node && frontier[j].cost
                <= bound;
        if j < i {
            assert(rest[j] == frontier[j]);
        } else if j > i {
            assert(rest[j - 1] == frontier[j]);
        } else {
            assert(more.contains((node, frontier[i].cost)));
        }
    } else {
        let c = choose|c: nat| #[trigger] expanded.contains((node, c)) && c <= bound;
        assert(more.contains((node, c)));
    }
}

/// Taking a route off the frontier, to offer the edges that leave its end,
/// loses nothing.
pub proof fn lemma_pop<N, C: HasZero>(
    edges: spec_fn(N, N) -> Option<C>,
    start: N,
    frontier: Seq<Route<N>>,
    table: Seq<Route<N>>,
    expanded: Set<(N, nat)>,
    i: int,
)
    requires
        0 <= i < frontier.len(),
        orderly(edges, start, frontier, table),
        tracks(edges, start, frontier, table, expanded, expanded),
    ensures
        orderly(edges, start, frontier.remove(i), table),
        tracks(
            edges,
            start,
            frontier.remove(i),
            table,
            expanded,
            expanded.insert((frontier[i].node, frontier[i].cost)),
        ),
{
    let rest = frontier.remove(i);
    let more = expanded.insert((frontier[i].node, frontier[i].cost));
    assert forall|k: int| 0 <= k < rest.len() implies sound(edges, start, table, #[trigger] rest[k]) by {
        if k < i {
            assert(rest[k] == frontier[k]);
        } else {
            assert(rest[k] == frontier[k + 1]);
        }
    }
    lemma_handled_after_pop(frontier, expanded, i, start, 0);
    assert forall|u: N, c: nat, w: N|
        #[trigger] expanded.contains((u, c)) && (#[trigger] edges(u, w)) is Some implies handled(
        rest,
        more,
        w,
        c + step(edges, u, w),
    ) by {
        lemma_handled_after_pop(frontier, expanded, i, w, c + step(edges, u, w));
    }
    assert forall|j: int| 0 <= j < table.len() implies handled(
        rest,
        more,
        (#[trigger] table[j]).node,
        table[j].cost,
    ) by {
        lemma_handled_after_pop(frontier, expanded, i, table[j].node, table[j].cost);
    }
}

/// What was accounted for stays so when the frontier grows.
pub proof fn lemma_handled_after_push<N>(
    frontier: Seq<Route<N>>,
    expanded: Set<(N, nat)>,
    offer: Route<N>,
    node: N,
    bound: nat,
)
    requires
        handled(frontier, expanded, node, bound),
    ensures
        handled(frontier.push(offer), expanded, node, bound),
{
    if known(frontier, node, bound) {
        let j = choose|j: int|
            0 <= j < frontier.len() && (#[trigger] frontier[j]).node == node && frontier[j].cost
                <= bound;
        assert(frontier.push(offer)[j] == frontier[j]);
    }
}

/// An offer that the table took and the frontier received loses nothing,
/// keeps frontier and table orderly, accounts for the node it leads to, and
/// either makes the table longer or lowers the sum of its costs.
pub proof fn lemma_offer_taken<N, C: HasZero>(
    edges: spec_fn(N, N) -> Option<C>,
    start: N,
    frontier: Seq<Route<N>>,
    table: Seq<Route<N>>,
    after: Seq<Route<N>>,
    closed: Set<(N, nat)>,
    expanded: Set<(N, nat)>,
    parent: Route<N>,
    offer: Route<N>,
)
    requires
        orderly(edges, start, frontier, table),
        tracks(edges, start, frontier, table, closed, expanded),
        sound(edges, start, table, parent),
        edges(parent.node, offer.node) is Some,
        offer.cost == parent.cost + step(edges, parent.node, offer.node),
        offer.path == parent.path.push(offer.node),
        improves(table, offer.node, offer.cost),
        records_offer(table, after, offer),
    ensures
        orderly(edges, start, frontier.push(offer), after),
        tracks(edges, start, frontier.push(offer), after, closed, expanded),
        sound(edges, start, after, parent),
        sound(edges, start, after, offer),
        handled(frontier.push(offer), expanded, offer.node, offer.cost),
        after.len() == table.len() + 1 || (after.len() == table.len() && cost_sum(after) < cost_sum(
            table,
        )),
{
    let grown = frontier.push(offer);
    let p = parent.path;
    let q = offer.path;
    lemma_walk_push(edges, p, offer.node);
    lemma_offer_leaves_path(edges, table, p, offer.node, offer.cost);
    lemma_covered_after_offer(edges, table, after, offer, p);
    // The offer itself is sound under the new table.
    assert(q.no_duplicates()) by {
        assert forall|a: int, b: int| 0 <= a < q.len() && 0 <= b < q.len() && a != b implies q[a]
            != q[b] by {
            if a < p.len() && b < p.len() {
                assert(p[a] != p[b]);
            } else if a < p.len() {
                assert(p.contains(p[a]));
            } else {
                assert(p.contains(p[b]));
            }
        }
    }
    let last = grown.len() - 1;
    assert(grown[last] == offer);
    assert(known(after, offer.node, offer.cost)) by {
        if reaches(table, offer.node) {
            let j = choose|j: int|
                0 <= j < table.len() && (#[trigger] table[j]).node == offer.node && after
                    == table.update(j, offer);
            assert(after[j] == offer);
        } else {
            assert(after[table.len() as int] == offer);
        }
    }
    assert(covered(edges, after, q)) by {
        assert forall|k: int| 0 <= k < q.len() implies #[trigger] known(
            after,
            q[k],
            prefix_cost(edges, q, k),
        ) by {
            if k < p.len() {
                assert(q.take(k + 1) =~= p.take(k + 1));
                assert(known(after, p[k], prefix_cost(edges, p, k)));
            } else {
                assert(q.take(k + 1) =~= q);
            }
        }
    }
    // So is every route that waited already.
    assert forall|i: int| 0 <= i < grown.len() implies sound(
        edges,
        start,
        after,
        #[trigger] grown[i],
    ) by {
        if i < frontier.len() {
            assert(grown[i] == frontier[i]);
            assert(sound(edges, start, table, frontier[i]));
            lemma_covered_after_offer(edges, table, after, offer, frontier[i].path);
        }
    }
    // The table stays a table of walks, one for a node.
    if reaches(table, offer.node) {
        let j = choose|j: int|
            0 <= j < table.len() && (#[trigger] table[j]).node == offer.node && after
                == table.update(j, offer);
        assert forall|a: int| 0 <= a < after.len() implies (#[trigger] after[a]).node
            == table[a].node by {}
        assert forall|a: int| 0 <= a < after.len() implies direct(
            edges,
            start,
            #[trigger] after[a],
        ) by {
            if a != j {
                assert(after[a] == table[a]);
            }
        }
        assert(distinct_nodes(after)) by {
            assert forall|a: int, b: int| 0 <= a < b < after.len() implies (#[trigger] after[a]).node
                != (#[trigger] after[b]).node by {
                assert(table[a].node != table[b].node);
            }
        }
        lemma_cost_sum_update(table, j, offer);
    } else {
        assert forall|a: int| 0 <= a < after.len() implies direct(
            edges,
            start,
            #[trigger] after[a],
        ) by {
            if a < table.len() {
                assert(after[a] == table[a]);
            }
        }
        assert(distinct_nodes(after)) by {
            assert forall|a: int, b: int| 0 <= a < b < after.len() implies (#[trigger] after[a]).node
                != (#[trigger] after[b]).node by {
                if b == table.len() {
                    assert(table[a].node != offer.node);
                } else {
                    assert(table[a].node != table[b].node);
                }
            }
        }
    }
    // Nothing is lost.
    lemma_handled_after_push(frontier, expanded, offer, start, 0);
    assert forall|u: N, c: nat, w: N|
        #[trigger] closed.contains((u, c)) && (#[trigger] edges(u, w)) is Some implies handled(
        grown,
        expanded,
        w,
        c + step(edges, u, w),
    ) by {
        lemma_handled_after_push(frontier, expanded, offer, w, c + step(edges, u, w));
    }
    assert forall|j: int| 0 <= j < after.len() implies handled(
        grown,
        expanded,
        (#[trigger] after[j]).node,
        after[j].cost,
    ) by {
        if after[j] == offer {
        } else {
            if reaches(table, offer.node) {
                assert(after[j] == table[j]);
            } else {
                assert(after[j] == table[j]);
            }
            lemma_handled_after_push(frontier, expanded, offer, table[j].node, table[j].cost);
        }
    }
}

/// An offer that the table declined leads to a node that is accounted for
/// at the offered cost.
pub proof fn lemma_offer_declined<N, C: HasZero>(
    edges: spec_fn(N, N) -> Option<C>,
    start: N,
    frontier: Seq<Route<N>>,
    table: Seq<Route<N>>,
    closed: Set<(N, nat)>,
    expanded: Set<(N, nat)>,
    node: N,
    bound: nat,
)
    requires
        tracks(edges, start, frontier, table, closed, expanded),
        known(table, node, bound),
    ensures
        handled(frontier, expanded, node, bound),
{
    let j = choose|j: int| 0 <= j < table.len() && (#[trigger] table[j]).node == node && table[j].cost <= bound;
    assert(handled(frontier, expanded, table[j].node, table[j].cost));
    if known(frontier, node, table[j].cost) {
        let i = choose|i: int|
            0 <= i < frontier.len() && (#[trigger] frontier[i]).node == node && frontier[i].cost
                <= table[j].cost;
        assert(frontier[i].cost <= bound);
    } else {
        let c = choose|c: nat| #[trigger] expanded.contains((node, c)) && c <= table[j].cost;
        assert(expanded.contains((node, c)) && c <= bound);
    }
}

/// Once every edge that leaves the pair in hand has been offered, the pair
/// is closed.
pub proof fn lemma_close<N, C: HasZero>(
    edges: spec_fn(N, N) -> Option<C>,
    start: N,
    frontier: Seq<Route<N>>,
    table: Seq<Route<N>>,
    closed: Set<(N, nat)>,
    node: N,
    cost: nat,
    list: Seq<(N, C)>,
)
    requires
        tracks(edges, start, frontier, table, closed, closed.insert((node, cost))),
        enumerates(edges, node, list),
        forall|j: int|
            0 <= j < list.len() ==> handled(
                frontier,
                closed.insert((node, cost)),
                (#[trigger] list[j]).0,
                cost + list[j].1.value(),
            ),
    ensures
        tracks(
            edges,
            start,
            frontier,
            table,
            closed.insert((node, cost)),
            closed.insert((node, cost)),
        ),
{
    let expanded = closed.insert((node, cost));
    assert forall|u: N, c: nat, w: N|
        #[trigger] expanded.contains((u, c)) && (#[trigger] edges(u, w)) is Some implies handled(
        frontier,
        expanded,
        w,
        c + step(edges, u, w),
    ) by {
        if closed.contains((u, c)) {
        } else {
            let j = choose|j: int| 0 <= j < list.len() && (#[trigger] list[j]).0 == w;
            assert(edges(node, list[j].0) == Some(list[j].1));
        }
    }
}

/// Some route of `frontier` ends at one of the first `k + 1` nodes of `p`
/// and costs no more than `p` costs up to that node.
pub open spec fn waits_along<N, C: HasZero>(
    edges: spec_fn(N, N) -> Option<C>,
    frontier: Seq<Route<N>>,
    p: Seq<N>,
    k: int,
) -> bool {
    exists|j: int| 0 <= j <= k && #[trigger] known(frontier, p[j], prefix_cost(edges, p, j))
}

/// Along a walk from the start, every node is either done at no more than
/// the walk costs up to it, or a route to that node or to one before it on
/// the walk waits on the frontier and costs no more than the walk costs up to
/// there.
pub proof fn lemma_walk_waits<N, C: HasZero>(
    edges: spec_fn(N, N) -> Option<C>,
    start: N,
    frontier: Seq<Route<N>>,
    table: Seq<Route<N>>,
    expanded: Set<(N, nat)>,
    p: Seq<N>,
    k: int,
)
    requires
        tracks(edges, start, frontier, table, expanded, expanded),
        is_walk(edges, p),
        p[0] == start,
        0 <= k < p.len(),
    ensures
        done(expanded, p[k], prefix_cost(edges, p, k)) || waits_along(edges, frontier, p, k),
    decreases k,
{
    if k == 0 {
        assert(p.take(1).len() == 1);
        if known(frontier, start, 0) {
            assert(known(frontier, p[0], prefix_cost(edges, p, 0)));
        }
    } else {
        lemma_walk_waits(edges, start, frontier, table, expanded, p, k - 1);
        lemma_walk_take_next(edges, p, k);
        let before = prefix_cost(edges, p, k - 1);
        let now = prefix_cost(edges, p, k);
        if waits_along(edges, frontier, p, k - 1) {
            let j = choose|j: int|
                0 <= j <= k - 1 && #[trigger] known(frontier, p[j], prefix_cost(edges, p, j));
            assert(known(frontier, p[j], prefix_cost(edges, p, j)));
        } else {
            let c = choose|c: nat| #[trigger] expanded.contains((p[k - 1], c)) && c <= before;
            let reach = c + step(edges, p[k - 1], p[k]);
            assert(handled(frontier, expanded, p[k], reach));
            if known(frontier, p[k], reach) {
                let i = choose|i: int|
                    0 <= i < frontier.len() && (#[trigger] frontier[i]).node == p[k]
                        && frontier[i].cost <= reach;
                assert(frontier[i].cost <= now);
                assert(known(frontier, p[k], prefix_cost(edges, p, k)));
            } else {
                let d = choose|d: nat| #[trigger] expanded.contains((p[k], d)) && d <= reach;
                assert(expanded.contains((p[k], d)) && d <= now);
            }
        }
    }
}

/// Along a walk from the start, every node is either done at no more than
/// the walk costs up to it, or some route on the frontier costs no more than
/// that.
pub proof fn lemma_walk_tracked<N, C: HasZero>(
    edges: spec_fn(N, N) -> Option<C>,
    start: N,
    frontier: Seq<Route<N>>,
    table: Seq<Route<N>>,
    expanded: Set<(N, nat)>,
    p: Seq<N>,
    k: int,
)
    requires
        tracks(edges, start, frontier, table, expanded, expanded),
        is_walk(edges, p),
        p[0] == start,
        0 <= k < p.len(),
    ensures
        done(expanded, p[k], prefix_cost(edges, p, k)) || some_within(
            frontier,
            prefix_cost(edges, p, k),
        ),
{
    lemma_walk_waits(edges, start, frontier, table, expanded, p, k);
    if waits_along(edges, frontier, p, k) {
        let j = choose|j: int|
            0 <= j <= k && #[trigger] known(frontier, p[j], prefix_cost(edges, p, j));
        let i = choose|i: int|
            0 <= i < frontier.len() && (#[trigger] frontier[i]).node == p[j] && frontier[i].cost
                <= prefix_cost(edges, p, j);
        lemma_walk_prefix(edges, p, k + 1);
        lemma_walk_prefix(edges, p.take(k + 1), j + 1);
        assert(p.take(k + 1).take(j + 1) =~= p.take(j + 1));
        assert(frontier[i].cost <= prefix_cost(edges, p, k));
    }
}

/// The table of a search is no longer than the graph has nodes, the start
/// counted in.
pub proof fn lemma_table_bound<N, C: HasZero>(
    edges: spec_fn(N, N) -> Option<C>,
    nodes: Seq<N>,
    start: N,
    table: Seq<Route<N>>,
)
    requires
        super::walk::within(edges, nodes),
        distinct_nodes(table),
        forall|j: int| 0 <= j < table.len() ==> records_walk(edges, start, #[trigger] table[j]),
    ensures
        table.len() <= nodes.len() + 1,
{
    let ends = table.map_values(|r: Route<N>| r.node);
    let all = nodes.push(start);
    assert(ends.no_duplicates()) by {
        assert forall|a: int, b: int| 0 <= a < ends.len() && 0 <= b < ends.len() && a != b implies ends[a]
            != ends[b] by {
            if a < b {
                assert(table[a].node != table[b].node);
            } else {
                assert(table[b].node != table[a].node);
            }
        }
    }
    assert forall|i: int| 0 <= i < ends.len() implies all.contains(#[trigger] ends[i]) by {
        let r = table[i];
        assert(records_walk(edges, start, r));
        if r.path.len() >= 2 {
            super::walk::lemma_walk_within(edges, nodes, r.path, r.path.len() - 1);
            let k = choose|k: int| 0 <= k < nodes.len() && nodes[k] == r.node;
            assert(all[k] == r.node);
        } else {
            assert(all[nodes.len() as int] == start);
        }
    }
    lemma_distinct_bound(all, ends);
}

} // verus!
