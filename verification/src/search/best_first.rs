//! Best-first search: the frontier is ordered by a score that the caller
//! computes for each candidate.

use super::adjacency::{lemma_closed_within, neighbours_of, onward};
use super::cost::HasZero;
use super::goal::{accepts, computes, passed, rejects};
use super::relaxation::{
    cost_sum, done, first_least, handled, known, lemma_close, lemma_first_least,
    lemma_first_least_in_range, lemma_handled_after_push, lemma_offer_declined, lemma_offer_taken,
    lemma_offered, lemma_offered_weight, lemma_pop, lemma_table_bound, lemma_walk_tracked,
    lemma_walk_waits, offered, orderly, prefix_cost, relax, some_within, sound, tracks,
};
use super::result::{origin, Route, route_of, routes, scored, scored_routes, SearchResult};
use super::state_graph::StateGraph;
use super::walk::{
    enumerates, is_walk, lemma_simple_walk_bound, lemma_walk_push, lemma_walk_split, walk_cost,
    within,
};
use vstd::laws_eq::obeys_concrete_eq;
use vstd::prelude::*;

verus! {

/// The score never ranks a dearer candidate before a cheaper one: of two
/// candidates, the one with the lower or equal score costs no more.
pub open spec fn orders_by_cost<N, C: HasZero, H: Fn(&SearchResult<N, C>) -> isize>(
    score: H,
) -> bool {
    forall|a: SearchResult<N, C>, b: SearchResult<N, C>, sa: isize, sb: isize|
        #![trigger score.ensures((&a,), sa), score.ensures((&b,), sb)]
        score.ensures((&a,), sa) && score.ensures((&b,), sb) && sa <= sb ==> a.cost.value()
            <= b.cost.value()
}

/// The score computes `rank`: whatever it gives for a candidate is what
/// `rank` gives for the candidate's route.
pub open spec fn ranks<N, C: HasZero, H: Fn(&SearchResult<N, C>) -> isize>(
    score: H,
    rank: spec_fn(Route<N>) -> isize,
) -> bool {
    forall|held: SearchResult<N, C>, s: isize|
        #[trigger] score.ensures((&held,), s) ==> s == rank(held@)
}

/// The score adds an estimate to the cost: for a candidate it gives the
/// candidate's cost and what `estimate` gives for the candidate's node.
pub open spec fn adds_estimate<N, C: HasZero, H: Fn(&SearchResult<N, C>) -> isize>(
    score: H,
    estimate: spec_fn(N) -> int,
) -> bool {
    forall|held: SearchResult<N, C>, s: isize|
        #[trigger] score.ensures((&held,), s) ==> s == held.cost.value() + estimate(held.node)
}

/// The estimate is admissible: it is never negative, and never more than
/// what a walk costs from the node to a node that the test cannot reject.
pub open spec fn admissible<N, C: HasZero, G: Fn(N) -> bool>(
    edges: spec_fn(N, N) -> Option<C>,
    is_goal: G,
    estimate: spec_fn(N) -> int,
) -> bool {
    &&& forall|node: N| 0 <= #[trigger] estimate(node)
    &&& forall|q: Seq<N>|
        #[trigger] is_walk(edges, q) && !rejects(is_goal, q.last()) ==> estimate(q[0])
            <= walk_cost(edges, q)
}

/// The scores of the entries of a frontier.
pub open spec fn scores<N>(frontier: Seq<(isize, Route<N>)>) -> Seq<int> {
    frontier.map_values(|e: (isize, Route<N>)| e.0 as int)
}

/// The frontier and the table once the edges of the node of `parent` have
/// been offered, from the edge at `from` on: each offer that the table takes
/// is put on the frontier with its score.
pub open spec fn relaxed<N, C: HasZero>(
    adj: Seq<(N, Seq<(N, C)>)>,
    rank: spec_fn(Route<N>) -> isize,
    parent: Route<N>,
    from: nat,
    frontier: Seq<(isize, Route<N>)>,
    table: Seq<Route<N>>,
) -> (Seq<(isize, Route<N>)>, Seq<Route<N>>)
    decreases neighbours_of(adj, parent.node).len() - from,
{
    if from >= neighbours_of(adj, parent.node).len() {
        (frontier, table)
    } else {
        let next = onward(adj, parent, from as int);
        match offered(table, next) {
            Some(after) => relaxed(
                adj,
                rank,
                parent,
                from + 1,
                frontier.push((rank(next), next)),
                after,
            ),
            None => relaxed(adj, rank, parent, from + 1, frontier, table),
        }
    }
}

/// What best-first search finds from a frontier and a table on, in a graph
/// of `count` nodes: nothing if the frontier is empty; the first of the
/// routes with the lowest score if its node is a goal; else what the search
/// finds once that route is off the frontier and the edges of its node have
/// been offered. A table of more than `count + 1` routes, which no search of
/// such a graph builds, ends the search with nothing.
pub open spec fn best_from<N, C: HasZero>(
    adj: Seq<(N, Seq<(N, C)>)>,
    count: nat,
    goal: spec_fn(N) -> bool,
    rank: spec_fn(Route<N>) -> isize,
    frontier: Seq<(isize, Route<N>)>,
    table: Seq<Route<N>>,
) -> Option<Route<N>>
    decreases count + 2 - table.len(), cost_sum(table) + frontier.len(),
{
    if frontier.len() == 0 || table.len() > count + 1 {
        None
    } else {
        let best = first_least(scores(frontier));
        let parent = frontier[best].1;
        if goal(parent.node) {
            Some(parent)
        } else {
            let (grown, after) = relaxed(adj, rank, parent, 0, frontier.remove(best), table);
            proof {
                lemma_first_least_in_range(scores(frontier));
                lemma_relaxed_weight(adj, rank, parent, 0, frontier.remove(best), table);
            }
            if after.len() > count + 1 {
                None
            } else {
                best_from(adj, count, goal, rank, grown, after)
            }
        }
    }
}

/// What best-first search from `start` finds: what it finds from the
/// frontier and the table that hold the route standing at `start` and no
/// other.
pub open spec fn first_best<N, C: HasZero>(
    adj: Seq<(N, Seq<(N, C)>)>,
    count: nat,
    goal: spec_fn(N) -> bool,
    rank: spec_fn(Route<N>) -> isize,
    start: N,
) -> Option<Route<N>> {
    best_from(
        adj,
        count,
        goal,
        rank,
        seq![(rank(origin(start)), origin(start))],
        seq![origin(start)],
    )
}

/// Searches from `start` for a node that `is_goal_state` calls a goal,
/// expanding first the candidate to which `heuristic` gives the lowest score;
/// among equal scores the one that has waited longest goes first.
///
/// A candidate is a node with the path that led to it and the cost of that
/// path. Expanding one offers each edge that leaves its node: the neighbour
/// becomes a candidate where it was not reached before, or only at a higher
/// cost. The search ends with the first candidate taken off the frontier
/// whose node is a goal, or with `None` once the frontier is empty.
///
/// With a score that orders candidates by their cost this is uniform-cost
/// search, and the result is a cheapest walk from `start` to a goal. The
/// same holds of a score that adds an admissible estimate to the cost.
///
/// Whatever predicate the goal test computes, and whatever rank the score
/// computes, the result is what `first_best` gives for the two.
pub fn best_first<N, C, G, H>(
    graph: &StateGraph<N, C>,
    start: N,
    is_goal_state: G,
    heuristic: H,
) -> (found: Option<SearchResult<N, C>>) where
    N: Copy + PartialEq,
    C: HasZero,
    G: Fn(N) -> bool,
    H: Fn(&SearchResult<N, C>) -> isize,

    requires
        obeys_concrete_eq::<N>(),
        graph.fits(start, graph.node_seq().len()),
        forall|node: N| is_goal_state.requires((node,)),
        forall|candidate: SearchResult<N, C>| heuristic.requires((&candidate,)),
    ensures
        match found {
            Some(route) => {
                &&& graph.records(start, route@)
                &&& accepts(is_goal_state, route.node)
                &&& passed(is_goal_state, route.path@)
                &&& route.path@.no_duplicates()
            },
            None => forall|p: Seq<N>|
                #[trigger] graph.is_walk(p) && p[0] == start ==> rejects(is_goal_state, p.last()),
        },
        orders_by_cost(heuristic) ==> (found matches Some(route) ==> forall|p: Seq<N>|
            #[trigger] graph.is_walk(p) && p[0] == start && !rejects(is_goal_state, p.last())
                ==> route.cost.value() <= graph.walk_cost(p)),
        forall|estimate: spec_fn(N) -> int| #[trigger]
            adds_estimate(heuristic, estimate) && admissible(
                graph.forward(),
                is_goal_state,
                estimate,
            ) ==> (found matches Some(route) ==> forall|p: Seq<N>|
                #[trigger] graph.is_walk(p) && p[0] == start && !rejects(is_goal_state, p.last())
                    ==> route.cost.value() <= graph.walk_cost(p)),
        forall|goal: spec_fn(N) -> bool, rank: spec_fn(Route<N>) -> isize|
            #![trigger computes(is_goal_state, goal), ranks(heuristic, rank)]
            computes(is_goal_state, goal) && ranks(heuristic, rank) ==> route_of(found)
                == first_best(graph.adjacency(), graph.node_seq().len(), goal, rank, start),
{
    let ghost edges = graph.forward();
    let ghost adj = graph.adjacency();
    let ghost nodes = graph.node_seq();
    proof {
        use_type_invariant(graph);
        lemma_closed_within(nodes, graph.adjacency());
    }
    let first: SearchResult<N, C> = SearchResult::at_start(start);
    let first_score = heuristic(&first);
    let mut frontier: Vec<(isize, SearchResult<N, C>)> = Vec::new();
    frontier.push((first_score, first));
    let mut reached: Vec<SearchResult<N, C>> = Vec::new();
    reached.push(SearchResult::at_start(start));
    let ghost mut expanded: Set<(N, nat)> = Set::empty();
    let none: Vec<(N, C)> = Vec::new();
    proof {
        let f = scored_routes(frontier@);
        let t = routes(reached@);
        let seed = origin(start);
        assert(f[0] == seed);
        assert(t[0] == seed);
        assert(seed.path.take(1) =~= seed.path);
        assert(known(t, start, prefix_cost(edges, seed.path, 0)));
        assert(sound(edges, start, t, seed));
        assert(orderly(edges, start, f, t));
        assert(tracks(edges, start, f, t, expanded, expanded));
        lemma_table_bound(edges, nodes, start, t);
        assert(scored(frontier@) =~= seq![(first_score, seed)]);
        assert(t =~= seq![seed]);
    }
    while frontier.len() > 0
        invariant
            obeys_concrete_eq::<N>(),
            graph.wf(),
            edges == graph.forward(),
            nodes == graph.node_seq(),
            none@.len() == 0,
            within(edges, nodes),
            graph.fits(start, nodes.len()),
            forall|node: N| is_goal_state.requires((node,)),
            forall|candidate: SearchResult<N, C>| heuristic.requires((&candidate,)),
            orderly(edges, start, scored_routes(frontier@), routes(reached@)),
            tracks(edges, start, scored_routes(frontier@), routes(reached@), expanded, expanded),
            reached.len() <= nodes.len() + 1,
            forall|i: int|
                0 <= i < frontier.len() ==> heuristic.ensures(
                    (&(#[trigger] frontier[i]).1,),
                    frontier[i].0,
                ),
            forall|i: int|
                0 <= i < frontier.len() ==> passed(is_goal_state, (#[trigger] frontier[i]).1.path@),
            forall|u: N, c: nat| #[trigger] expanded.contains((u, c)) ==> rejects(is_goal_state, u),
            adj == graph.adjacency(),
            forall|goal: spec_fn(N) -> bool, rank: spec_fn(Route<N>) -> isize|
                #![trigger computes(is_goal_state, goal), ranks(heuristic, rank)]
                computes(is_goal_state, goal) && ranks(heuristic, rank) ==> best_from(
                    adj,
                    nodes.len(),
                    goal,
                    rank,
                    scored(frontier@),
                    routes(reached@),
                ) == first_best(adj, nodes.len(), goal, rank, start),
        decreases nodes.len() + 1 - reached.len(), cost_sum(routes(reached@)) + frontier.len(),
    {
        let ghost waiting = scored_routes(frontier@);
        let ghost table = routes(reached@);
        let ghost closed = expanded;
        let ghost before = frontier@;
        let best = lowest_score(&frontier);
        proof {
            let keys = scores(scored(before));
            assert forall|j: int| 0 <= j < keys.len() implies keys[best as int] <= #[trigger] keys[j] by {
                assert(before[best as int].0 <= before[j].0);
            }
            assert forall|j: int| 0 <= j < best implies keys[best as int] < #[trigger] keys[j] by {
                assert(before[best as int].0 < before[j].0);
            }
            lemma_first_least(keys, best as int);
        }
        let (_, parent) = frontier.remove(best);
        assert(parent@ == waiting[best as int]);
        assert(parent@ == scored(before)[best as int].1);
        assert(scored(frontier@) =~= scored(before).remove(best as int));
        assert(sound(edges, start, table, parent@));
        if is_goal_state(parent.node) {
            proof {
                assert forall|estimate: spec_fn(N) -> int| #[trigger]
                    adds_estimate(heuristic, estimate) && admissible(
                        edges,
                        is_goal_state,
                        estimate,
                    ) implies (forall|p: Seq<N>|
                    #[trigger] graph.is_walk(p) && p[0] == start && !rejects(
                        is_goal_state,
                        p.last(),
                    ) ==> parent.cost.value() <= graph.walk_cost(p)) by {
                    assert forall|p: Seq<N>|
                        #[trigger] graph.is_walk(p) && p[0] == start && !rejects(
                            is_goal_state,
                            p.last(),
                        ) implies parent.cost.value() <= graph.walk_cost(p) by {
                        let last = p.len() - 1;
                        lemma_walk_waits(edges, start, waiting, table, closed, p, last);
                        assert(p.take(p.len() as int) =~= p);
                        if done(closed, p.last(), prefix_cost(edges, p, last)) {
                            let c = choose|c: nat|
                                #[trigger] closed.contains((p.last(), c)) && c <= prefix_cost(
                                    edges,
                                    p,
                                    last,
                                );
                            assert(rejects(is_goal_state, p.last()));
                        } else {
                            let j = choose|j: int|
                                0 <= j <= last && #[trigger] known(
                                    waiting,
                                    p[j],
                                    prefix_cost(edges, p, j),
                                );
                            let i = choose|i: int|
                                0 <= i < waiting.len() && (#[trigger] waiting[i]).node == p[j]
                                    && waiting[i].cost <= prefix_cost(edges, p, j);
                            lemma_walk_split(edges, p, j);
                            assert(is_walk(edges, p.skip(j)));
                            assert(estimate(p.skip(j)[0]) <= walk_cost(edges, p.skip(j)));
                            assert(waiting[i] == before[i].1@);
                            assert(before[best as int].0 <= before[i].0);
                            assert(heuristic.ensures((&before[best as int].1,), before[best as int].0));
                            assert(heuristic.ensures((&before[i].1,), before[i].0));
                            assert(0 <= estimate(parent.node));
                        }
                    }
                }
                if orders_by_cost(heuristic) {
                    assert forall|p: Seq<N>|
                        #[trigger] graph.is_walk(p) && p[0] == start && !rejects(
                            is_goal_state,
                            p.last(),
                        ) implies parent.cost.value() <= graph.walk_cost(p) by {
                        lemma_walk_tracked(edges, start, waiting, table, closed, p, p.len() - 1);
                        assert(p.take(p.len() as int) =~= p);
                        let total = prefix_cost(edges, p, p.len() - 1);
                        assert(total == graph.walk_cost(p));
                        if done(closed, p.last(), total) {
                            let c = choose|c: nat| #[trigger] closed.contains((p.last(), c)) && c <= total;
                            assert(rejects(is_goal_state, p.last()));
                        } else {
                            let j = choose|j: int| 0 <= j < waiting.len() && (#[trigger] waiting[j]).cost <= total;
                            assert(waiting[j] == before[j].1@);
                            assert(before[best as int].0 <= before[j].0);
                            assert(heuristic.ensures((&before[best as int].1,), before[best as int].0));
                            assert(heuristic.ensures((&before[j].1,), before[j].0));
                        }
                    }
                }
            }
            return Some(parent);
        }
        proof {
            lemma_pop(edges, start, waiting, table, closed, best as int);
            expanded = closed.insert((parent.node, parent.cost.value()));
            assert(scored_routes(frontier@) =~= waiting.remove(best as int));
            assert forall|i: int| 0 <= i < frontier.len() implies heuristic.ensures(
                (&(#[trigger] frontier[i]).1,),
                frontier[i].0,
            ) && passed(is_goal_state, frontier[i].1.path@) by {
                if i < best {
                    assert(frontier[i] == before[i]);
                } else {
                    assert(frontier[i] == before[i + 1]);
                }
            }
        }
        let children = graph.successors(parent.node, &none);
        let ghost table_len = reached.len();
        let ghost weight = cost_sum(table) + before.len();
        let mut i: usize = 0;
        while i < children.len()
            invariant
                i <= children.len(),
                obeys_concrete_eq::<N>(),
                edges == graph.forward(),
                nodes == graph.node_seq(),
                within(edges, nodes),
                graph.fits(start, nodes.len()),
                enumerates(edges, parent.node, children@),
                forall|candidate: SearchResult<N, C>| heuristic.requires((&candidate,)),
                expanded == closed.insert((parent.node, parent.cost.value())),
                orderly(edges, start, scored_routes(frontier@), routes(reached@)),
                tracks(edges, start, scored_routes(frontier@), routes(reached@), closed, expanded),
                sound(edges, start, routes(reached@), parent@),
                passed(is_goal_state, parent.path@),
                rejects(is_goal_state, parent.node),
                forall|j: int|
                    0 <= j < i ==> handled(
                        scored_routes(frontier@),
                        expanded,
                        (#[trigger] children[j]).0,
                        parent.cost.value() + children[j].1.value(),
                    ),
                forall|k: int|
                    0 <= k < frontier.len() ==> heuristic.ensures(
                        (&(#[trigger] frontier[k]).1,),
                        frontier[k].0,
                    ),
                forall|k: int|
                    0 <= k < frontier.len() ==> passed(
                        is_goal_state,
                        (#[trigger] frontier[k]).1.path@,
                    ),
                reached.len() > table_len || (reached.len() == table_len && cost_sum(
                    routes(reached@),
                ) + frontier.len() < weight),
                adj == graph.adjacency(),
                children@ == neighbours_of(adj, parent.node),
                forall|goal: spec_fn(N) -> bool, rank: spec_fn(Route<N>) -> isize|
                    #![trigger computes(is_goal_state, goal), ranks(heuristic, rank)]
                    computes(is_goal_state, goal) && ranks(heuristic, rank) ==> resumed(
                        adj,
                        nodes.len(),
                        goal,
                        rank,
                        parent@,
                        i as nat,
                        scored(frontier@),
                        routes(reached@),
                    ) == first_best(adj, nodes.len(), goal, rank, start),
            decreases children.len() - i,
        {
            let (child, edge_cost) = children[i];
            let ghost f = scored_routes(frontier@);
            let ghost t = routes(reached@);
            let ghost old_frontier = frontier@;
            proof {
                let p = parent.path@;
                assert(edges(parent.node, child) == Some(edge_cost));
                lemma_walk_push(edges, p, child);
                lemma_simple_walk_bound(edges, nodes, p);
                if p.len() == 1 {
                    assert(nodes.contains(parent.node));
                }
                assert(is_walk(edges, p.push(child)));
            }
            match relax(&parent, child, edge_cost, &mut reached) {
                Some(candidate) => {
                    let score = heuristic(&candidate);
                    proof {
                        lemma_offer_taken(
                            edges,
                            start,
                            f,
                            t,
                            routes(reached@),
                            closed,
                            expanded,
                            parent@,
                            candidate@,
                        );
                        assert forall|j: int| 0 <= j < i implies handled(
                            f.push(candidate@),
                            expanded,
                            (#[trigger] children[j]).0,
                            parent.cost.value() + children[j].1.value(),
                        ) by {
                            lemma_handled_after_push(
                                f,
                                expanded,
                                candidate@,
                                children[j].0,
                                parent.cost.value() + children[j].1.value(),
                            );
                        }
                        assert(passed(is_goal_state, candidate.path@)) by {
                            assert forall|k: int| 0 <= k < candidate.path@.len() - 1 implies rejects(
                                is_goal_state,
                                #[trigger] candidate.path@[k],
                            ) by {
                                if k < parent.path@.len() - 1 {
                                    assert(rejects(is_goal_state, parent.path@[k]));
                                }
                            }
                        }
                    }
                    proof {
                        lemma_offered(t, routes(reached@), candidate@, true);
                        assert(candidate@ == onward(adj, parent@, i as int));
                    }
                    let ghost rated = scored(frontier@);
                    frontier.push((score, candidate));
                    proof {
                        assert(scored(frontier@) =~= rated.push((score, candidate@)));
                        assert(scored_routes(frontier@) =~= f.push(candidate@));
                        assert forall|k: int| 0 <= k < frontier.len() implies heuristic.ensures(
                            (&(#[trigger] frontier[k]).1,),
                            frontier[k].0,
                        ) && passed(is_goal_state, frontier[k].1.path@) by {
                            if k < old_frontier.len() {
                                assert(frontier[k] == old_frontier[k]);
                            }
                        }
                    }
                },
                None => {
                    proof {
                        lemma_offer_declined(
                            edges,
                            start,
                            f,
                            t,
                            closed,
                            expanded,
                            child,
                            parent.cost.value() + edge_cost.value(),
                        );
                        lemma_offered(t, t, onward(adj, parent@, i as int), false);
                    }
                },
            }
            i += 1;
        }
        proof {
            lemma_close(
                edges,
                start,
                scored_routes(frontier@),
                routes(reached@),
                closed,
                parent.node,
                parent.cost.value(),
                children@,
            );
            lemma_table_bound(edges, nodes, start, routes(reached@));
        }
    }
    proof {
        let waiting = scored_routes(frontier@);
        let table = routes(reached@);
        assert forall|p: Seq<N>| #[trigger] graph.is_walk(p) && p[0] == start implies rejects(
            is_goal_state,
            p.last(),
        ) by {
            lemma_walk_tracked(edges, start, waiting, table, expanded, p, p.len() - 1);
            let total = prefix_cost(edges, p, p.len() - 1);
            assert(!some_within(waiting, total));
            let c = choose|c: nat| #[trigger] expanded.contains((p.last(), c)) && c <= total;
            assert(rejects(is_goal_state, p.last()));
        }
    }
    None
}

/// The position of the first entry of `frontier` that has the lowest score.
fn lowest_score<N, C>(frontier: &Vec<(isize, SearchResult<N, C>)>) -> (best: usize)
    requires
        frontier.len() > 0,
    ensures
        best < frontier.len(),
        forall|j: int| 0 <= j < frontier.len() ==> frontier[best as int].0 <= (#[trigger] frontier[j]).0,
        forall|j: int| 0 <= j < best ==> frontier[best as int].0 < (#[trigger] frontier[j]).0,
{
    let mut best: usize = 0;
    let mut i: usize = 1;
    while i < frontier.len()
        invariant
            1 <= i <= frontier.len(),
            best < i,
            forall|j: int| 0 <= j < i ==> frontier[best as int].0 <= (#[trigger] frontier[j]).0,
            forall|j: int| 0 <= j < best ==> frontier[best as int].0 < (#[trigger] frontier[j]).0,
        decreases frontier.len() - i,
    {
        if frontier[i].0 < frontier[best].0 {
            best = i;
        }
        i += 1;
    }
    best
}

/// What the search finds once the edges of the node of `parent` have been
/// offered from the edge at `from` on.
spec fn resumed<N, C: HasZero>(
    adj: Seq<(N, Seq<(N, C)>)>,
    count: nat,
    goal: spec_fn(N) -> bool,
    rank: spec_fn(Route<N>) -> isize,
    parent: Route<N>,
    from: nat,
    frontier: Seq<(isize, Route<N>)>,
    table: Seq<Route<N>>,
) -> Option<Route<N>> {
    let (grown, after) = relaxed(adj, rank, parent, from, frontier, table);
    if after.len() > count + 1 {
        None
    } else {
        best_from(adj, count, goal, rank, grown, after)
    }
}

/// Offering edges makes the table longer, or leaves it as long and lets
/// frontier and table together weigh no more.
pub proof fn lemma_relaxed_weight<N, C: HasZero>(
    adj: Seq<(N, Seq<(N, C)>)>,
    rank: spec_fn(Route<N>) -> isize,
    parent: Route<N>,
    from: nat,
    frontier: Seq<(isize, Route<N>)>,
    table: Seq<Route<N>>,
)
    ensures
        ({
            let (grown, after) = relaxed(adj, rank, parent, from, frontier, table);
            after.len() > table.len() || (after.len() == table.len() && cost_sum(after)
                + grown.len() <= cost_sum(table) + frontier.len())
        }),
    decreases neighbours_of(adj, parent.node).len() - from,
{
    if from < neighbours_of(adj, parent.node).len() {
        let next = onward(adj, parent, from as int);
        lemma_offered_weight(table, next);
        match offered(table, next) {
            Some(after) => {
                lemma_relaxed_weight(
                    adj,
                    rank,
                    parent,
                    from + 1,
                    frontier.push((rank(next), next)),
                    after,
                );
            },
            None => {
                lemma_relaxed_weight(adj, rank, parent, from + 1, frontier, table);
            },
        }
    }
}

} // verus!
