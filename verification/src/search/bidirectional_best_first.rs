//! Bidirectional best-first search: one cost-ordered search from the start
//! along the edges, one from the end against them, and a route wherever the
//! two meet.

use super::adjacency::{along, incoming_of, lemma_closed_within, neighbours_of};
use super::cost::HasZero;
use super::relaxation::{
    cost_sum, direct, distinct_nodes, find_node, first_least, handled, known, lemma_close,
    lemma_first_least, lemma_first_least_in_range, lemma_handled_after_push,
    lemma_known_after_offer, lemma_offer_declined, lemma_offer_taken, lemma_offered,
    lemma_offered_weight, lemma_pop, lemma_table_bound, lemma_walk_tracked, offered, orderly,
    prefix_cost, reaches, records_offer, relax, some_within, sound, tracks,
};
use super::result::{origin, Route, route_of, routes, SearchResult};
use super::state_graph::StateGraph;
use super::walk::{
    enumerates, is_walk, joins, lemma_simple_walk_bound, lemma_stitch, lemma_stitch_meets_once,
    lemma_walk_push, meets_once, stitch, walk_cost, walks_fit, within,
};
use vstd::laws_eq::obeys_concrete_eq;
use vstd::prelude::*;

verus! {

/// No walk from `start` to `end` costs less than `cost`.
pub open spec fn cheapest<N, C: HasZero>(
    edges: spec_fn(N, N) -> Option<C>,
    start: N,
    end: N,
    cost: nat,
) -> bool {
    forall|p: Seq<N>| #[trigger] joins(edges, p, start, end) ==> cost <= walk_cost(edges, p)
}

/// The verdict computes `accept`: whatever it says of a solution is what
/// `accept` says of the solution's route.
pub open spec fn judges<N, C: HasZero, F: Fn(&SearchResult<N, C>) -> bool>(
    accept_solution: F,
    accept: spec_fn(Route<N>) -> bool,
) -> bool {
    forall|held: SearchResult<N, C>, verdict: bool|
        #[trigger] accept_solution.ensures((&held,), verdict) ==> verdict == accept(held@)
}

/// One side of the search: the routes that wait, and the table of the
/// cheapest routes recorded.
pub struct Half<N> {
    pub frontier: Seq<Route<N>>,
    pub table: Seq<Route<N>>,
}

/// The costs of the routes of a frontier.
pub open spec fn costs<N>(frontier: Seq<Route<N>>) -> Seq<int> {
    frontier.map_values(|r: Route<N>| r.cost as int)
}

/// The edges that a side follows from `node`: the ones that leave it, for
/// the side of the start; the ones that arrive at it, for the side of the end.
pub open spec fn edges_from<N, C>(adj: Seq<(N, Seq<(N, C)>)>, forward: bool, node: N) -> Seq<
    (N, C),
> {
    if forward {
        neighbours_of(adj, node)
    } else {
        incoming_of(adj, node)
    }
}

/// The best solution once a side has recorded `next`: where the other side
/// has a route to the same node, the join of the two, unless the best
/// solution so far costs no more.
pub open spec fn joined<N>(
    forward: bool,
    end: N,
    next: Route<N>,
    theirs: Seq<Route<N>>,
    best: Option<Route<N>>,
) -> Option<Route<N>> {
    if reaches(theirs, next.node) {
        let met = theirs[choose|j: int|
            0 <= j < theirs.len() && (#[trigger] theirs[j]).node == next.node];
        let total = next.cost + met.cost;
        if best is Some && best.unwrap().cost <= total {
            best
        } else {
            Some(
                Route {
                    node: end,
                    cost: total,
                    path: if forward {
                        stitch(next.path, met.path)
                    } else {
                        stitch(met.path, next.path)
                    },
                },
            )
        }
    } else {
        best
    }
}

/// A side and the best solution once the side has offered the edges of
/// `list`, which are those of the node of `parent`, from the edge at `from`
/// on: each offer that the side's table takes is put on its frontier, and
/// joined with the other side's route to the same node.
pub open spec fn advanced_from<N, C: HasZero>(
    list: Seq<(N, C)>,
    forward: bool,
    end: N,
    parent: Route<N>,
    from: nat,
    mine: Half<N>,
    theirs: Seq<Route<N>>,
    best: Option<Route<N>>,
) -> (Half<N>, Option<Route<N>>)
    decreases list.len() - from,
{
    if from >= list.len() {
        (mine, best)
    } else {
        let next = along(list, parent, from as int);
        match offered(mine.table, next) {
            Some(after) => advanced_from(
                list,
                forward,
                end,
                parent,
                from + 1,
                Half { frontier: mine.frontier.push(next), table: after },
                theirs,
                joined(forward, end, next, theirs, best),
            ),
            None => advanced_from(list, forward, end, parent, from + 1, mine, theirs, best),
        }
    }
}

/// A side and the best solution once the side has taken the route at `at`
/// off its frontier and offered the edges of its node.
pub open spec fn expanded_at<N, C: HasZero>(
    adj: Seq<(N, Seq<(N, C)>)>,
    forward: bool,
    end: N,
    at: int,
    mine: Half<N>,
    theirs: Seq<Route<N>>,
    best: Option<Route<N>>,
) -> (Half<N>, Option<Route<N>>) {
    let parent = mine.frontier[at];
    advanced_from(
        edges_from(adj, forward, parent.node),
        forward,
        end,
        parent,
        0,
        Half { frontier: mine.frontier.remove(at), table: mine.table },
        theirs,
        best,
    )
}

/// What the search from both ends finds from the two sides `near` and `far`
/// and the best solution `best` on, in a graph of `count` nodes. Nothing if
/// a side has no route waiting. Else the side whose cheapest waiting route is
/// cheaper, `near` on a tie, takes the first such route off its frontier and
/// offers the edges of its node; the best solution after that is the result
/// if it is accepted, and else the search goes on. A table of more than
/// `count + 1` routes, which no search of such a graph builds, ends the search
/// with nothing.
pub open spec fn met_from<N, C: HasZero>(
    adj: Seq<(N, Seq<(N, C)>)>,
    count: nat,
    end: N,
    accept: spec_fn(Route<N>) -> bool,
    near: Half<N>,
    far: Half<N>,
    best: Option<Route<N>>,
) -> Option<Route<N>>
    decreases 2 * count + 4 - near.table.len() - far.table.len(),
        cost_sum(near.table) + near.frontier.len() + cost_sum(far.table) + far.frontier.len(),
{
    if near.frontier.len() == 0 || far.frontier.len() == 0 || near.table.len() > count + 1
        || far.table.len() > count + 1 {
        None
    } else {
        let a = first_least(costs(near.frontier));
        let b = first_least(costs(far.frontier));
        proof {
            lemma_first_least_in_range(costs(near.frontier));
            lemma_first_least_in_range(costs(far.frontier));
        }
        if far.frontier[b].cost < near.frontier[a].cost {
            let (after, better) = expanded_at(adj, false, end, b, far, near.table, best);
            proof {
                let parent = far.frontier[b];
                lemma_advanced_weight(
                    edges_from(adj, false, parent.node),
                    false,
                    end,
                    parent,
                    0,
                    Half { frontier: far.frontier.remove(b), table: far.table },
                    near.table,
                    best,
                );
            }
            if better is Some && accept(better.unwrap()) {
                better
            } else if after.table.len() > count + 1 {
                None
            } else {
                met_from(adj, count, end, accept, near, after, better)
            }
        } else {
            let (after, better) = expanded_at(adj, true, end, a, near, far.table, best);
            proof {
                let parent = near.frontier[a];
                lemma_advanced_weight(
                    edges_from(adj, true, parent.node),
                    true,
                    end,
                    parent,
                    0,
                    Half { frontier: near.frontier.remove(a), table: near.table },
                    far.table,
                    best,
                );
            }
            if better is Some && accept(better.unwrap()) {
                better
            } else if after.table.len() > count + 1 {
                None
            } else {
                met_from(adj, count, end, accept, after, far, better)
            }
        }
    }
}

/// What the search from both ends finds between `start` and `end`: what it
/// finds from two sides on that hold the routes standing at `start` and at
/// `end`, with no solution yet.
pub open spec fn first_met<N, C: HasZero>(
    adj: Seq<(N, Seq<(N, C)>)>,
    count: nat,
    start: N,
    end: N,
    accept: spec_fn(Route<N>) -> bool,
) -> Option<Route<N>> {
    met_from(
        adj,
        count,
        end,
        accept,
        Half { frontier: seq![origin(start)], table: seq![origin(start)] },
        Half { frontier: seq![origin(end)], table: seq![origin(end)] },
        None,
    )
}

/// Searches for a route from `start` to `end` from both ends at once.
///
/// Two cost-ordered searches take turns: one from `start` along the edges,
/// one from `end` against them. The side whose cheapest waiting route is
/// cheaper expands it; on a tie the side of `start` does. Whenever a side
/// records a cheaper route to a node that the other side has reached too,
/// the two routes are joined at that node, and the join replaces the best
/// solution so far if it is cheaper. After each expansion the best solution
/// is shown to `accept_solution`, and returned if it is accepted. The search
/// gives up with `None` once a side has nothing left to expand.
///
/// A solution runs from `start` to `end` and passes the meeting node once.
/// Where `end` can be reached and `None` comes back all the same,
/// `accept_solution` has rejected a cheapest route.
///
/// Whatever predicate `accept_solution` computes, the result is what
/// `first_met` gives for that predicate.
pub fn bidirectional_best_first<N, C, F>(
    graph: &StateGraph<N, C>,
    start: N,
    end: N,
    accept_solution: F,
) -> (found: Option<SearchResult<N, C>>) where
    N: Copy + PartialEq,
    C: HasZero,
    F: Fn(&SearchResult<N, C>) -> bool,

    requires
        obeys_concrete_eq::<N>(),
        graph.fits(start, 2 * graph.node_seq().len()),
        walks_fit(graph.backward(), end, graph.node_seq().len()),
        forall|solution: SearchResult<N, C>| accept_solution.requires((&solution,)),
    ensures
        found matches Some(route) ==> graph.records(start, route@) && route.node == end
            && meets_once(route.path@) && accept_solution.ensures((&route,), true),
        found is None && start != end ==> forall|p: Seq<N>| #[trigger]
            graph.joins(p, start, end) ==> exists|rejected: SearchResult<N, C>|
                {
                    &&& graph.records(start, rejected@)
                    &&& rejected.node == end
                    &&& cheapest(graph.forward(), start, end, rejected@.cost)
                    &&& #[trigger] accept_solution.ensures((&rejected,), false)
                },
        forall|accept: spec_fn(Route<N>) -> bool| #[trigger]
            judges(accept_solution, accept) ==> route_of(found) == first_met(
                graph.adjacency(),
                graph.node_seq().len(),
                start,
                end,
                accept,
            ),
{
    let ghost adj = graph.adjacency();
    let ghost count = graph.node_seq().len();
    proof {
        use_type_invariant(graph);
    }
    let mut near: Side<N, C> = Side::seeded(Ghost(graph.forward()), start);
    let mut far: Side<N, C> = Side::seeded(Ghost(graph.backward()), end);
    let mut solution: Option<SearchResult<N, C>> = None;
    while near.frontier.len() > 0 && far.frontier.len() > 0
        invariant
            obeys_concrete_eq::<N>(),
            graph.wf(),
            graph.fits(start, 2 * graph.node_seq().len()),
            walks_fit(graph.backward(), end, graph.node_seq().len()),
            forall|candidate: SearchResult<N, C>| accept_solution.requires((&candidate,)),
            near.settled(graph.forward(), start),
            far.settled(graph.backward(), end),
            near.reached.len() <= graph.node_seq().len() + 1,
            far.reached.len() <= graph.node_seq().len() + 1,
            start != end ==> meets(routes(near.reached@), routes(far.reached@), route_of(solution)),
            connects(*graph, start, end, route_of(solution)),
            solution matches Some(s) ==> accept_solution.ensures((&s,), false),
            adj == graph.adjacency(),
            count == graph.node_seq().len(),
            forall|accept: spec_fn(Route<N>) -> bool| #[trigger]
                judges(accept_solution, accept) ==> met_from(
                    adj,
                    count,
                    end,
                    accept,
                    near.half(),
                    far.half(),
                    route_of(solution),
                ) == first_met(adj, count, start, end, accept),
        decreases
                2 * graph.node_seq().len() + 2 - near.reached.len() - far.reached.len(),
                near.weight() + far.weight(),
    {
        let cheapest_near = lowest_cost(&near.frontier);
        let cheapest_far = lowest_cost(&far.frontier);
        proof {
            lemma_cheapest(near.frontier@, cheapest_near as int);
            lemma_cheapest(far.frontier@, cheapest_far as int);
        }
        if far.frontier[cheapest_far].cost.less(near.frontier[cheapest_near].cost) {
            proof {
                if start != end {
                    lemma_meets_turned(
                        routes(near.reached@),
                        routes(far.reached@),
                        route_of(solution),
                    );
                }
            }
            expand(graph, start, end, false, cheapest_far, &mut far, &near, &mut solution);
            proof {
                if start != end {
                    lemma_meets_turned(
                        routes(far.reached@),
                        routes(near.reached@),
                        route_of(solution),
                    );
                }
            }
        } else {
            expand(graph, start, end, true, cheapest_near, &mut near, &far, &mut solution);
        }
        let accepted = match &solution {
            Some(s) => accept_solution(s),
            None => false,
        };
        if accepted {
            return solution;
        }
    }
    proof {
        if start != end {
            assert forall|p: Seq<N>| #[trigger] graph.joins(p, start, end) implies exists|
                rejected: SearchResult<N, C>,
            |
                {
                    &&& graph.records(start, rejected@)
                    &&& rejected.node == end
                    &&& cheapest(graph.forward(), start, end, rejected@.cost)
                    &&& #[trigger] accept_solution.ensures((&rejected,), false)
                } by {
                let best = route_of(solution);
                assert forall|q: Seq<N>| #[trigger]
                    joins(graph.forward(), q, start, end) implies best is Some
                    && best.unwrap().cost <= walk_cost(graph.forward(), q) by {
                    lemma_given_up(*graph, start, end, near, far, best, q);
                }
                assert(joins(graph.forward(), p, start, end));
                let s = solution.unwrap();
                assert(cheapest(graph.forward(), start, end, s@.cost));
                assert(accept_solution.ensures((&s,), false));
            }
        }
    }
    None
}

/// Searching from both ends finds what uniform-cost search finds: where the
/// goal test singles out `end`, and `accept_solution` accepts no route from
/// `start` to `end` but a cheapest one, a result of `bidirectional_best_first`
/// costs what a result of `best_first` under a score that orders by cost
/// costs.
pub proof fn lemma_agrees_with_uniform_cost<N: Copy + PartialEq, C: HasZero, G, F>(
    graph: StateGraph<N, C>,
    start: N,
    end: N,
    is_goal_state: G,
    accept_solution: F,
    uniform: SearchResult<N, C>,
    meeting: SearchResult<N, C>,
) where G: Fn(N) -> bool, F: Fn(&SearchResult<N, C>) -> bool
    requires
        forall|node: N| super::goal::accepts(is_goal_state, node) ==> node == end,
        forall|node: N| super::goal::rejects(is_goal_state, node) ==> node != end,
        forall|route: SearchResult<N, C>| #[trigger]
            accept_solution.ensures((&route,), true) && graph.records(start, route@) && route.node
                == end ==> cheapest(graph.forward(), start, end, route@.cost),
        graph.records(start, uniform@),
        super::goal::accepts(is_goal_state, uniform.node),
        forall|p: Seq<N>| #[trigger]
            graph.is_walk(p) && p[0] == start && !super::goal::rejects(is_goal_state, p.last())
                ==> uniform.cost.value() <= graph.walk_cost(p),
        graph.records(start, meeting@),
        meeting.node == end,
        accept_solution.ensures((&meeting,), true),
    ensures
        uniform.cost.value() == meeting.cost.value(),
{
    assert(joins(graph.forward(), uniform.path@, start, end));
    assert(graph.is_walk(meeting.path@));
}

/// Joins a path from the start to a meeting node and a path from the end to
/// the same node into one path from the start to the end, the meeting node
/// in it once.
pub fn stitch_paths<N: Copy>(fwd: &Vec<N>, bwd: &Vec<N>) -> (joined: Vec<N>)
    requires
        bwd.len() >= 1,
    ensures
        joined@ == stitch(fwd@, bwd@),
{
    let mut joined: Vec<N> = Vec::new();
    let mut i: usize = 0;
    while i < fwd.len()
        invariant
            i <= fwd.len(),
            joined@ == fwd@.take(i as int),
        decreases fwd.len() - i,
    {
        joined.push(fwd[i]);
        assert(fwd@.take(i + 1) =~= fwd@.take(i as int).push(fwd@[i as int]));
        i += 1;
    }
    assert(fwd@.take(i as int) =~= fwd@);
    let ghost tail = bwd@.drop_last().reverse();
    let mut k: usize = bwd.len() - 1;
    assert(tail.take(0) =~= Seq::<N>::empty());
    assert(joined@ =~= fwd@ + tail.take(0));
    while k > 0
        invariant
            k <= bwd.len() - 1,
            tail == bwd@.drop_last().reverse(),
            tail.len() == bwd.len() - 1,
            joined@ == fwd@ + tail.take(bwd.len() - 1 - k),
        decreases k,
    {
        k -= 1;
        joined.push(bwd[k]);
        proof {
            let taken = bwd.len() - 2 - k;
            assert(tail[taken] == bwd@[k as int]);
            assert(tail.take(taken + 1) =~= tail.take(taken).push(tail[taken]));
            assert(joined@ =~= fwd@ + tail.take(taken + 1));
        }
    }
    assert(tail.take(tail.len() as int) =~= tail);
    joined
}

/// One of the two searches: the routes that wait to be expanded, the
/// cheapest route recorded for each node reached, and, for the proofs, the
/// pairs of node and cost that have been expanded.
#[verifier::reject_recursive_types(N)]
struct Side<N, C> {
    frontier: Vec<SearchResult<N, C>>,
    reached: Vec<SearchResult<N, C>>,
    expanded: Ghost<Set<(N, nat)>>,
}

impl<N, C: HasZero> Side<N, C> {
    /// The side, between two expansions, searches from `origin` along
    /// `edges` and has lost nothing.
    spec fn settled(&self, edges: spec_fn(N, N) -> Option<C>, origin: N) -> bool {
        settled(edges, origin, routes(self.frontier@), routes(self.reached@), self.expanded@)
    }

    /// The side as far as the result depends on it.
    spec fn half(&self) -> Half<N> {
        Half { frontier: routes(self.frontier@), table: routes(self.reached@) }
    }

    /// What falls with every expansion, as long as the table keeps its
    /// length.
    spec fn weight(&self) -> int {
        cost_sum(routes(self.reached@)) + self.frontier.len()
    }
}

impl<N: Copy + PartialEq, C: HasZero> Side<N, C> {
    /// A side that has reached its origin and nothing else.
    fn seeded(edges: Ghost<spec_fn(N, N) -> Option<C>>, origin: N) -> (side: Side<N, C>)
        ensures
            side.settled(edges@, origin),
            side.frontier.len() == 1,
            side.reached.len() == 1,
            routes(side.reached@)[0].node == origin,
            side.half() == (Half {
                frontier: seq![super::result::origin(origin)],
                table: seq![super::result::origin(origin)],
            }),
    {
        let mut frontier: Vec<SearchResult<N, C>> = Vec::new();
        frontier.push(SearchResult::at_start(origin));
        let mut reached: Vec<SearchResult<N, C>> = Vec::new();
        reached.push(SearchResult::at_start(origin));
        proof {
            lemma_seeded(edges@, origin, routes(frontier@), routes(reached@));
            assert(routes(frontier@) =~= seq![super::result::origin(origin)]);
            assert(routes(reached@) =~= seq![super::result::origin(origin)]);
        }
        Side { frontier, reached, expanded: Ghost(Set::empty()) }
    }
}

/// Takes the route at `index` off the frontier of `mine` and offers the
/// edges of its node, as `advance` describes.
fn expand<N: Copy + PartialEq, C: HasZero>(
    graph: &StateGraph<N, C>,
    start: N,
    end: N,
    forward: bool,
    index: usize,
    mine: &mut Side<N, C>,
    theirs: &Side<N, C>,
    solution: &mut Option<SearchResult<N, C>>,
)
    requires
        obeys_concrete_eq::<N>(),
        graph.wf(),
        graph.fits(start, 2 * graph.node_seq().len()),
        walks_fit(graph.backward(), end, graph.node_seq().len()),
        index < old(mine).frontier.len(),
        old(mine).settled(toward(*graph, forward), if forward {
            start
        } else {
            end
        }),
        theirs.settled(toward(*graph, !forward), if forward {
            end
        } else {
            start
        }),
        start != end ==> meets(
            routes(old(mine).reached@),
            routes(theirs.reached@),
            route_of(*old(solution)),
        ),
        connects(*graph, start, end, route_of(*old(solution))),
    ensures
        final(mine).settled(toward(*graph, forward), if forward {
            start
        } else {
            end
        }),
        start != end ==> meets(
            routes(final(mine).reached@),
            routes(theirs.reached@),
            route_of(*final(solution)),
        ),
        connects(*graph, start, end, route_of(*final(solution))),
        final(mine).reached.len() <= graph.node_seq().len() + 1,
        final(mine).reached.len() > old(mine).reached.len() || (final(mine).reached.len() == old(
            mine,
        ).reached.len() && final(mine).weight() < old(mine).weight()),
        (final(mine).half(), route_of(*final(solution))) == expanded_at(
            graph.adjacency(),
            forward,
            end,
            index as int,
            old(mine).half(),
            theirs.half().table,
            route_of(*old(solution)),
        ),
{
    let ghost edges = toward(*graph, forward);
    let ghost origin = if forward {
        start
    } else {
        end
    };
    let ghost waiting = routes(mine.frontier@);
    let ghost table = routes(mine.reached@);
    let ghost closed = mine.expanded@;
    let parent = mine.frontier.remove(index);
    proof {
        assert(parent@ == waiting[index as int]);
        lemma_pop(edges, origin, waiting, table, closed, index as int);
        assert(routes(mine.frontier@) =~= waiting.remove(index as int));
        assert(known(table, parent.node, parent@.cost)) by {
            let last = parent.path@.len() - 1;
            assert(known(table, parent.path@[last], prefix_cost(edges, parent.path@, last)));
            assert(parent.path@.take(last + 1) =~= parent.path@);
        }
    }
    advance(
        graph,
        start,
        end,
        forward,
        &parent,
        &mut mine.frontier,
        &mut mine.reached,
        &theirs.reached,
        solution,
        Ghost(closed),
    );
    proof {
        let grown = closed.insert((parent.node, parent.cost.value()));
        assert forall|u: N, c: nat| #[trigger] grown.contains((u, c)) implies known(
            routes(mine.reached@),
            u,
            c,
        ) by {
            assert(known(table, u, c));
        }
        assert(known(table, origin, 0));
        within_either(*graph, forward);
        lemma_table_bound(edges, graph.node_seq(), origin, routes(mine.reached@));
    }
    mine.expanded = Ghost(closed.insert((parent.node, parent.cost.value())));
}

/// Offers every edge that leaves the node of `parent`, a route just taken
/// off this side's frontier. A neighbour that this side had not reached, or
/// only at a higher cost, is recorded and put on the frontier; where the
/// other side has reached it too, the two routes are joined, and the join
/// becomes the solution if it is cheaper than the one so far.
fn advance<N: Copy + PartialEq, C: HasZero>(
    graph: &StateGraph<N, C>,
    start: N,
    end: N,
    forward: bool,
    parent: &SearchResult<N, C>,
    current_frontier: &mut Vec<SearchResult<N, C>>,
    current_reached: &mut Vec<SearchResult<N, C>>,
    other_reached: &Vec<SearchResult<N, C>>,
    solution: &mut Option<SearchResult<N, C>>,
    Ghost(closed): Ghost<Set<(N, nat)>>,
)
    requires
        obeys_concrete_eq::<N>(),
        graph.wf(),
        graph.fits(start, 2 * graph.node_seq().len()),
        walks_fit(graph.backward(), end, graph.node_seq().len()),
        advancing(
            *graph,
            start,
            end,
            forward,
            parent@,
            routes(old(current_frontier)@),
            routes(old(current_reached)@),
            routes(other_reached@),
            route_of(*old(solution)),
            closed,
        ),
    ensures
        advanced(
            *graph,
            start,
            end,
            forward,
            parent@,
            routes(final(current_frontier)@),
            routes(final(current_reached)@),
            routes(other_reached@),
            route_of(*final(solution)),
            closed,
        ),
        forall|u: N, c: nat|
            #[trigger] known(routes(old(current_reached)@), u, c) ==> known(
                routes(final(current_reached)@),
                u,
                c,
            ),
        final(current_reached).len() > old(current_reached).len() || (final(current_reached).len()
            == old(current_reached).len() && cost_sum(routes(final(current_reached)@))
            + final(current_frontier).len() <= cost_sum(routes(old(current_reached)@))
            + old(current_frontier).len()),
        (
            Half {
                frontier: routes(final(current_frontier)@),
                table: routes(final(current_reached)@),
            },
            route_of(*final(solution)),
        ) == advanced_from(
            edges_from(graph.adjacency(), forward, parent.node),
            forward,
            end,
            parent@,
            0,
            Half { frontier: routes(old(current_frontier)@), table: routes(old(current_reached)@) },
            routes(other_reached@),
            route_of(*old(solution)),
        ),
{
    let ghost edges = toward(*graph, forward);
    let ghost adj = graph.adjacency();
    let ghost frontier_before = routes(current_frontier@);
    let ghost best_before = route_of(*solution);
    let ghost back = toward(*graph, !forward);
    let ghost origin = if forward {
        start
    } else {
        end
    };
    let ghost other = if forward {
        end
    } else {
        start
    };
    let ghost nodes = graph.node_seq();
    let ghost expanded = closed.insert((parent.node, parent.cost.value()));
    let ghost theirs = routes(other_reached@);
    let ghost table_before = routes(current_reached@);
    let ghost weight = cost_sum(table_before) + current_frontier.len();
    let none: Vec<(N, C)> = Vec::new();
    let incoming = if forward {
        Vec::new()
    } else {
        graph.predecessors(parent.node)
    };
    let children = if forward {
        graph.successors(parent.node, &none)
    } else {
        &incoming
    };
    proof {
        lemma_closed_within(nodes, graph.adjacency());
    }
    let ghost list = children@;
    assert(list == edges_from(adj, forward, parent.node));
    let mut i: usize = 0;
    while i < children.len()
        invariant
            i <= children.len(),
            obeys_concrete_eq::<N>(),
            graph.wf(),
            list == children@,
            advanced_from(
                list,
                forward,
                end,
                parent@,
                i as nat,
                Half { frontier: routes(current_frontier@), table: routes(current_reached@) },
                theirs,
                route_of(*solution),
            ) == advanced_from(
                list,
                forward,
                end,
                parent@,
                0,
                Half { frontier: frontier_before, table: table_before },
                theirs,
                best_before,
            ),
            nodes == graph.node_seq(),
            edges == toward(*graph, forward),
            back == toward(*graph, !forward),
            origin == (if forward {
                start
            } else {
                end
            }),
            other == (if forward {
                end
            } else {
                start
            }),
            within(graph.forward(), nodes),
            within(graph.backward(), nodes),
            graph.fits(start, 2 * nodes.len()),
            walks_fit(graph.backward(), end, nodes.len()),
            enumerates(edges, parent.node, children@),
            expanded == closed.insert((parent.node, parent.cost.value())),
            theirs == routes(other_reached@),
            orderly(edges, origin, routes(current_frontier@), routes(current_reached@)),
            tracks(
                edges,
                origin,
                routes(current_frontier@),
                routes(current_reached@),
                closed,
                expanded,
            ),
            sound(edges, origin, routes(current_reached@), parent@),
            orderly(back, other, Seq::empty(), theirs),
            start != end ==> meets(routes(current_reached@), theirs, route_of(*solution)),
            connects(*graph, start, end, route_of(*solution)),
            forall|j: int|
                0 <= j < i ==> handled(
                    routes(current_frontier@),
                    expanded,
                    (#[trigger] children[j]).0,
                    parent.cost.value() + children[j].1.value(),
                ),
            forall|u: N, c: nat|
                #[trigger] known(table_before, u, c) ==> known(routes(current_reached@), u, c),
            current_reached.len() > table_before.len() || (current_reached.len()
                == table_before.len() && cost_sum(routes(current_reached@))
                + current_frontier.len() <= weight),
        decreases children.len() - i,
    {
        let (child, edge_cost) = children[i];
        let ghost f = routes(current_frontier@);
        let ghost t = routes(current_reached@);
        let ghost best = route_of(*solution);
        proof {
            let p = parent.path@;
            assert(edges(parent.node, child) == Some(edge_cost));
            lemma_walk_push(edges, p, child);
            within_either(*graph, forward);
            lemma_simple_walk_bound(edges, nodes, p);
            if p.len() == 1 {
                assert(nodes.contains(parent.node));
            }
            assert(is_walk(edges, p.push(child)));
        }
        match relax(parent, child, edge_cost, current_reached) {
            Some(candidate) => {
                proof {
                    assert(candidate@ == along(list, parent@, i as int));
                    lemma_offered(t, routes(current_reached@), candidate@, true);
                    lemma_offer_taken(
                        edges,
                        origin,
                        f,
                        t,
                        routes(current_reached@),
                        closed,
                        expanded,
                        parent@,
                        candidate@,
                    );
                    assert forall|j: int| 0 <= j < i implies handled(
                        f.push(candidate@),
                        expanded,
                        (#[trigger] children[j]).0,
                        parent.cost.value() + children[j].1.value(),
                    ) by {
                        lemma_handled_after_push(
                            f,
                            expanded,
                            candidate@,
                            children[j].0,
                            parent.cost.value() + children[j].1.value(),
                        );
                    }
                    assert forall|u: N, c: nat| #[trigger] known(table_before, u, c) implies known(
                        routes(current_reached@),
                        u,
                        c,
                    ) by {
                        lemma_known_after_offer(t, routes(current_reached@), candidate@, u, c);
                    }
                }
                match find_node(other_reached, child) {
                    Some(j) => {
                        let met = &other_reached[j];
                        proof {
                            assert(theirs[j as int] == met@);
                            assert(direct(back, other, met@));
                            within_either(*graph, !forward);
                            lemma_simple_walk_bound(back, nodes, met.path@);
                            lemma_simple_walk_bound(edges, nodes, candidate.path@);
                            flipped(*graph);
                            if forward {
                                lemma_stitch(edges, back, candidate.path@, met.path@);
                                lemma_stitch_meets_once(candidate.path@, met.path@);
                            } else {
                                lemma_stitch(back, edges, met.path@, candidate.path@);
                                lemma_stitch_meets_once(met.path@, candidate.path@);
                            }
                        }
                        let total = candidate.cost.plus(met.cost);
                        let cheaper = match solution {
                            Some(s) => total.less(s.cost),
                            None => true,
                        };
                        if cheaper {
                            let path = if forward {
                                stitch_paths(&candidate.path, &met.path)
                            } else {
                                stitch_paths(&met.path, &candidate.path)
                            };
                            *solution = Some(SearchResult { node: end, cost: total, path });
                        }
                        proof {
                            assert forall|k: int|
                                0 <= k < theirs.len() && (#[trigger] theirs[k]).node
                                    == candidate@.node implies k == j by {
                                if k < j {
                                    assert(theirs[k].node != theirs[j as int].node);
                                } else if k > j {
                                    assert(theirs[j as int].node != theirs[k].node);
                                }
                            }
                            assert(route_of(*solution) == joined(
                                forward,
                                end,
                                candidate@,
                                theirs,
                                best,
                            ));
                            if start != end {
                                lemma_meets_after_offer(
                                    t,
                                    routes(current_reached@),
                                    theirs,
                                    candidate@,
                                    best,
                                    route_of(*solution),
                                );
                            }
                        }
                    },
                    None => {
                        proof {
                            assert(route_of(*solution) == joined(
                                forward,
                                end,
                                candidate@,
                                theirs,
                                best,
                            ));
                            if start != end {
                                assert forall|k: int|
                                    0 <= k < theirs.len() implies (#[trigger] theirs[k]).node
                                    != candidate@.node by {
                                    assert(reaches(theirs, theirs[k].node));
                                }
                                lemma_meets_after_offer(
                                    t,
                                    routes(current_reached@),
                                    theirs,
                                    candidate@,
                                    best,
                                    best,
                                );
                            }
                        }
                    },
                }
                current_frontier.push(candidate);
                proof {
                    assert(routes(current_frontier@) =~= f.push(candidate@));
                }
            },
            None => {
                proof {
                    lemma_offer_declined(
                        edges,
                        origin,
                        f,
                        t,
                        closed,
                        expanded,
                        child,
                        parent.cost.value() + edge_cost.value(),
                    );
                    lemma_offered(t, t, along(list, parent@, i as int), false);
                }
            },
        }
        i += 1;
    }
    proof {
        lemma_close(
            edges,
            origin,
            routes(current_frontier@),
            routes(current_reached@),
            closed,
            parent.node,
            parent.cost.value(),
            children@,
        );
    }
}

/// The position of the first route of `frontier` that has the lowest cost.
fn lowest_cost<N, C: HasZero>(frontier: &Vec<SearchResult<N, C>>) -> (best: usize)
    requires
        frontier.len() > 0,
    ensures
        best < frontier.len(),
        forall|j: int|
            0 <= j < frontier.len() ==> frontier[best as int].cost.value() <= (
            #[trigger] frontier[j]).cost.value(),
        forall|j: int|
            0 <= j < best ==> frontier[best as int].cost.value() < (
            #[trigger] frontier[j]).cost.value(),
{
    let mut best: usize = 0;
    let mut i: usize = 1;
    while i < frontier.len()
        invariant
            1 <= i <= frontier.len(),
            best < i,
            forall|j: int|
                0 <= j < i ==> frontier[best as int].cost.value() <= (
                #[trigger] frontier[j]).cost.value(),
            forall|j: int|
                0 <= j < best ==> frontier[best as int].cost.value() < (
                #[trigger] frontier[j]).cost.value(),
        decreases frontier.len() - i,
    {
        if frontier[i].cost.less(frontier[best].cost) {
            best = i;
        }
        i += 1;
    }
    best
}

/// The position that `lowest_cost` finds is the first of the least costs.
proof fn lemma_cheapest<N, C: HasZero>(frontier: Seq<SearchResult<N, C>>, best: int)
    requires
        0 <= best < frontier.len(),
        forall|j: int|
            0 <= j < frontier.len() ==> frontier[best].cost.value() <= (
            #[trigger] frontier[j]).cost.value(),
        forall|j: int|
            0 <= j < best ==> frontier[best].cost.value() < (#[trigger] frontier[j]).cost.value(),
    ensures
        first_least(costs(routes(frontier))) == best,
{
    let keys = costs(routes(frontier));
    assert forall|j: int| 0 <= j < keys.len() implies keys[best] <= #[trigger] keys[j] by {
        assert(frontier[best].cost.value() <= frontier[j].cost.value());
    }
    assert forall|j: int| 0 <= j < best implies keys[best] < #[trigger] keys[j] by {
        assert(frontier[best].cost.value() < frontier[j].cost.value());
    }
    lemma_first_least(keys, best);
}

/// Offering edges makes the table longer, or leaves it as long and lets
/// frontier and table together weigh no more.
pub proof fn lemma_advanced_weight<N, C: HasZero>(
    list: Seq<(N, C)>,
    forward: bool,
    end: N,
    parent: Route<N>,
    from: nat,
    mine: Half<N>,
    theirs: Seq<Route<N>>,
    best: Option<Route<N>>,
)
    ensures
        ({
            let after = advanced_from(list, forward, end, parent, from, mine, theirs, best).0;
            after.table.len() > mine.table.len() || (after.table.len() == mine.table.len()
                && cost_sum(after.table) + after.frontier.len() <= cost_sum(mine.table)
                + mine.frontier.len())
        }),
    decreases list.len() - from,
{
    if from < list.len() {
        let next = along(list, parent, from as int);
        lemma_offered_weight(mine.table, next);
        match offered(mine.table, next) {
            Some(after) => {
                lemma_advanced_weight(
                    list,
                    forward,
                    end,
                    parent,
                    from + 1,
                    Half { frontier: mine.frontier.push(next), table: after },
                    theirs,
                    joined(forward, end, next, theirs, best),
                );
            },
            None => {
                lemma_advanced_weight(list, forward, end, parent, from + 1, mine, theirs, best);
            },
        }
    }
}

/// Wherever the two tables hold the same node, `best` is a route that costs
/// no more than the two routes to that node together.
spec fn meets<N>(mine: Seq<Route<N>>, theirs: Seq<Route<N>>, best: Option<Route<N>>) -> bool {
    forall|i: int, j: int|
        0 <= i < mine.len() && 0 <= j < theirs.len() && (#[trigger] mine[i]).node == (
        #[trigger] theirs[j]).node ==> best is Some && best.unwrap().cost <= mine[i].cost
            + theirs[j].cost
}

/// The edge function that a side of the search follows.
spec fn toward<N, C: HasZero>(graph: StateGraph<N, C>, forward: bool) -> spec_fn(
    N,
    N,
) -> Option<C> {
    if forward {
        graph.forward()
    } else {
        graph.backward()
    }
}

/// `best`, where there is one, is a walk of the graph from `start` to `end`
/// with its cost, and passes a meeting node once.
spec fn connects<N, C: HasZero>(
    graph: StateGraph<N, C>,
    start: N,
    end: N,
    best: Option<Route<N>>,
) -> bool {
    best matches Some(s) ==> graph.records(start, s) && s.node == end && meets_once(s.path)
}

/// One side of the search between two expansions: its frontier and table
/// are orderly, nothing has been lost, the table knows the side's origin at
/// no cost and every expanded pair at no more than its cost.
spec fn settled<N, C: HasZero>(
    edges: spec_fn(N, N) -> Option<C>,
    origin: N,
    frontier: Seq<Route<N>>,
    table: Seq<Route<N>>,
    expanded: Set<(N, nat)>,
) -> bool {
    &&& orderly(edges, origin, frontier, table)
    &&& tracks(edges, origin, frontier, table, expanded, expanded)
    &&& known(table, origin, 0)
    &&& forall|u: N, c: nat| #[trigger] expanded.contains((u, c)) ==> known(table, u, c)
}

/// What holds when a side is about to offer the edges of the route that it
/// has just taken off its frontier.
spec fn advancing<N, C: HasZero>(
    graph: StateGraph<N, C>,
    start: N,
    end: N,
    forward: bool,
    parent: Route<N>,
    frontier: Seq<Route<N>>,
    table: Seq<Route<N>>,
    theirs: Seq<Route<N>>,
    best: Option<Route<N>>,
    closed: Set<(N, nat)>,
) -> bool {
    let origin = if forward {
        start
    } else {
        end
    };
    let other = if forward {
        end
    } else {
        start
    };
    &&& orderly(toward(graph, forward), origin, frontier, table)
    &&& tracks(
        toward(graph, forward),
        origin,
        frontier,
        table,
        closed,
        closed.insert((parent.node, parent.cost)),
    )
    &&& sound(toward(graph, forward), origin, table, parent)
    &&& orderly(toward(graph, !forward), other, Seq::empty(), theirs)
    &&& start != end ==> meets(table, theirs, best)
    &&& connects(graph, start, end, best)
}

/// What holds once the side has offered them all.
spec fn advanced<N, C: HasZero>(
    graph: StateGraph<N, C>,
    start: N,
    end: N,
    forward: bool,
    parent: Route<N>,
    frontier: Seq<Route<N>>,
    table: Seq<Route<N>>,
    theirs: Seq<Route<N>>,
    best: Option<Route<N>>,
    closed: Set<(N, nat)>,
) -> bool {
    let origin = if forward {
        start
    } else {
        end
    };
    let expanded = closed.insert((parent.node, parent.cost));
    &&& orderly(toward(graph, forward), origin, frontier, table)
    &&& tracks(toward(graph, forward), origin, frontier, table, expanded, expanded)
    &&& start != end ==> meets(table, theirs, best)
    &&& connects(graph, start, end, best)
}

/// A taken offer keeps the two tables and the best route in step, once the
/// best route has been set to the join at the offer's node where that join
/// is cheaper.
proof fn lemma_meets_after_offer<N>(
    table: Seq<Route<N>>,
    after: Seq<Route<N>>,
    theirs: Seq<Route<N>>,
    offer: Route<N>,
    best: Option<Route<N>>,
    better: Option<Route<N>>,
)
    requires
        meets(table, theirs, best),
        records_offer(table, after, offer),
        distinct_nodes(theirs),
        best matches Some(s) ==> better is Some && better.unwrap().cost <= s.cost,
        forall|j: int|
            0 <= j < theirs.len() && (#[trigger] theirs[j]).node == offer.node ==> better is Some
                && better.unwrap().cost <= offer.cost + theirs[j].cost,
    ensures
        meets(after, theirs, better),
{
    assert forall|i: int, j: int|
        0 <= i < after.len() && 0 <= j < theirs.len() && (#[trigger] after[i]).node == (
        #[trigger] theirs[j]).node implies better is Some && better.unwrap().cost <= after[i].cost
        + theirs[j].cost by {
        if after[i] == offer {
        } else {
            assert(after[i] == table[i]);
            assert(table[i].node == theirs[j].node);
        }
    }
}

/// All edges of a graph, in either direction, stay within its nodes.
proof fn within_either<N: Copy + PartialEq, C: HasZero>(graph: StateGraph<N, C>, forward: bool)
    requires
        graph.wf(),
    ensures
        within(toward(graph, forward), graph.node_seq()),
{
    lemma_closed_within(graph.node_seq(), graph.adjacency());
}

/// The reversed graph has the edges of the graph, each turned round.
proof fn flipped<N: Copy + PartialEq, C: HasZero>(graph: StateGraph<N, C>)
    ensures
        forall|a: N, b: N| #[trigger] graph.backward()(a, b) == graph.forward()(b, a),
        forall|a: N, b: N| #[trigger] graph.forward()(a, b) == graph.backward()(b, a),
{
}

/// The walk of the reversed graph that a walk of the graph makes when it is
/// walked from its end, and its cost.
proof fn lemma_walk_reversed<N, C: HasZero>(
    edges: spec_fn(N, N) -> Option<C>,
    back: spec_fn(N, N) -> Option<C>,
    p: Seq<N>,
)
    requires
        forall|a: N, b: N| #[trigger] edges(a, b) == back(b, a),
        is_walk(edges, p),
    ensures
        is_walk(back, p.reverse()),
        p.reverse()[0] == p.last(),
        p.reverse().last() == p[0],
        walk_cost(back, p.reverse()) == walk_cost(edges, p),
{
    let turn = seq![p.last()];
    assert(is_walk(back, turn));
    lemma_stitch(back, edges, turn, p);
    assert(stitch(turn, p) =~= p.reverse());
}

/// Once a side has nothing left to expand, no walk from `start` to `end` is
/// cheaper than the best solution, and where there is such a walk there is a
/// solution.
proof fn lemma_given_up<N: Copy + PartialEq, C: HasZero>(
    graph: StateGraph<N, C>,
    start: N,
    end: N,
    near: Side<N, C>,
    far: Side<N, C>,
    best: Option<Route<N>>,
    p: Seq<N>,
)
    requires
        near.settled(graph.forward(), start),
        far.settled(graph.backward(), end),
        near.frontier.len() == 0 || far.frontier.len() == 0,
        meets(routes(near.reached@), routes(far.reached@), best),
        graph.joins(p, start, end),
    ensures
        best is Some,
        best.unwrap().cost <= graph.walk_cost(p),
{
    let edges = graph.forward();
    let back = graph.backward();
    flipped(graph);
    if near.frontier.len() == 0 {
        assert(routes(near.frontier@).len() == 0);
        lemma_across(
            edges,
            start,
            end,
            routes(near.frontier@),
            routes(near.reached@),
            near.expanded@,
            routes(far.reached@),
            best,
            p,
        );
    } else {
        assert(routes(far.frontier@).len() == 0);
        lemma_walk_reversed(edges, back, p);
        lemma_meets_turned(routes(near.reached@), routes(far.reached@), best);
        lemma_across(
            back,
            end,
            start,
            routes(far.frontier@),
            routes(far.reached@),
            far.expanded@,
            routes(near.reached@),
            best,
            p.reverse(),
        );
    }
}

/// A search that has only just been seeded with its origin is settled.
proof fn lemma_seeded<N, C: HasZero>(
    edges: spec_fn(N, N) -> Option<C>,
    origin: N,
    frontier: Seq<Route<N>>,
    table: Seq<Route<N>>,
)
    requires
        frontier =~= seq![Route { node: origin, cost: 0, path: seq![origin] }],
        table =~= seq![Route { node: origin, cost: 0, path: seq![origin] }],
    ensures
        settled(edges, origin, frontier, table, Set::empty()),
{
    let seed = Route { node: origin, cost: 0, path: seq![origin] };
    assert(frontier[0] == seed);
    assert(table[0] == seed);
    assert(seed.path.take(1) =~= seed.path);
    assert(known(table, origin, prefix_cost(edges, seed.path, 0)));
    assert(sound(edges, origin, table, seed));
}

/// Which of the two tables is named first does not matter.
proof fn lemma_meets_turned<N>(mine: Seq<Route<N>>, theirs: Seq<Route<N>>, best: Option<Route<N>>)
    requires
        meets(mine, theirs, best),
    ensures
        meets(theirs, mine, best),
{
    assert forall|i: int, j: int|
        0 <= i < theirs.len() && 0 <= j < mine.len() && (#[trigger] theirs[i]).node == (
        #[trigger] mine[j]).node implies best is Some && best.unwrap().cost <= theirs[i].cost
        + mine[j].cost by {
        assert(mine[j].node == theirs[i].node);
    }
}

/// Once a side has nothing left to expand, the best solution costs no more
/// than any walk from that side's origin to the other's.
proof fn lemma_across<N, C: HasZero>(
    edges: spec_fn(N, N) -> Option<C>,
    origin: N,
    target: N,
    frontier: Seq<Route<N>>,
    table: Seq<Route<N>>,
    expanded: Set<(N, nat)>,
    theirs: Seq<Route<N>>,
    best: Option<Route<N>>,
    p: Seq<N>,
)
    requires
        frontier.len() == 0,
        settled(edges, origin, frontier, table, expanded),
        known(theirs, target, 0),
        meets(table, theirs, best),
        joins(edges, p, origin, target),
    ensures
        best is Some,
        best.unwrap().cost <= walk_cost(edges, p),
{
    let last = p.len() - 1;
    lemma_walk_tracked(edges, origin, frontier, table, expanded, p, last);
    assert(p.take(last + 1) =~= p);
    let total = prefix_cost(edges, p, last);
    assert(!some_within(frontier, total));
    let c = choose|c: nat| #[trigger] expanded.contains((target, c)) && c <= total;
    assert(known(table, target, c));
    let i = choose|i: int| 0 <= i < table.len() && (#[trigger] table[i]).node == target && table[i].cost <= c;
    let j = choose|j: int| 0 <= j < theirs.len() && (#[trigger] theirs[j]).node == target && theirs[j].cost <= 0;
    assert(table[i].node == theirs[j].node);
}

} // verus!
