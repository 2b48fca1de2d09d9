//! Depth-first search with an optional bound on the length of paths.

use super::adjacency::{distinct_keys, lemma_closed_within, neighbours_of, onward};
use super::cost::HasZero;
use super::goal::{accepts, computes, passed, rejects};
use super::relaxation::direct;
use super::result::{origin, Route, route_of, routes, SearchResult};
use super::state_graph::{contains_node, StateGraph};
use super::walk::{
    enumerates, is_walk, lemma_distinct_bound, lemma_simple_walk_bound, lemma_walk_push, within,
};
use vstd::arithmetic::power::{lemma_pow_positive, pow};
use vstd::laws_eq::obeys_concrete_eq;
use vstd::prelude::*;

verus! {

/// Whether a path of `len` nodes is within the depth limit. A path of one
/// node always is: the start is looked at whatever the limit.
pub open spec fn within_depth(depth_limit: Option<usize>, len: nat) -> bool {
    match depth_limit {
        Some(limit) => len <= limit || len <= 1,
        None => true,
    }
}

/// A path that the search has to look at: a walk from `start` that visits no
/// node twice and is within the depth limit.
pub open spec fn in_scope<N, C>(
    edges: spec_fn(N, N) -> Option<C>,
    start: N,
    depth_limit: Option<usize>,
    p: Seq<N>,
) -> bool {
    &&& is_walk(edges, p)
    &&& p[0] == start
    &&& p.no_duplicates()
    &&& within_depth(depth_limit, p.len())
}

/// What depth-first search finds from the route `from` on: `from` itself if
/// its node is a goal; else nothing if its path has reached the depth limit;
/// else what it finds beyond `from`. `count` is the number of the graph's
/// nodes: no path that visits no node twice has more nodes than that, but
/// for one of a single node.
pub open spec fn first_found<N, C: HasZero>(
    adj: Seq<(N, Seq<(N, C)>)>,
    count: nat,
    depth_limit: Option<usize>,
    goal: spec_fn(N) -> bool,
    from: Route<N>,
) -> Option<Route<N>>
    decreases count + 1 - from.path.len(), neighbours_of(adj, from.node).len() + 1,
{
    if goal(from.node) {
        Some(from)
    } else if depth_limit matches Some(limit) && from.path.len() >= limit {
        None
    } else if from.path.len() > count {
        None
    } else {
        first_found_beyond(
            adj,
            count,
            depth_limit,
            goal,
            from,
            neighbours_of(adj, from.node).len(),
        )
    }
}

/// What depth-first search finds beyond `from` over the first `upto` of the
/// edges that leave its node: what it finds from the last of them on, unless
/// that edge leads back onto the path; failing that, what it finds over the
/// edges before.
pub open spec fn first_found_beyond<N, C: HasZero>(
    adj: Seq<(N, Seq<(N, C)>)>,
    count: nat,
    depth_limit: Option<usize>,
    goal: spec_fn(N) -> bool,
    from: Route<N>,
    upto: nat,
) -> Option<Route<N>>
    decreases count + 1 - from.path.len(), upto,
{
    if upto == 0 || upto > neighbours_of(adj, from.node).len() || from.path.len() > count {
        None
    } else {
        let next = onward(adj, from, upto - 1);
        let found = if from.path.contains(next.node) {
            None
        } else {
            first_found(adj, count, depth_limit, goal, next)
        };
        if found is Some {
            found
        } else {
            first_found_beyond(adj, count, depth_limit, goal, from, (upto - 1) as nat)
        }
    }
}

/// Searches from `start` for a node that `is_goal_state` calls a goal,
/// always following the path found last.
///
/// The search keeps a stack of routes. It takes the top route off; if its
/// node is a goal, that route is the result. Else, unless the route's path
/// has `depth_limit` nodes or more, each neighbour that is not yet on the
/// path is put on the stack with the path extended to it. `None` comes back
/// once the stack is empty. A path visits no node twice; a node may still be
/// looked at several times, on different paths.
///
/// The result is within the depth limit, though a goal at `start` is found
/// whatever the limit. `None` says that the test rejected the end of every
/// path from `start` that visits no node twice and is within the limit.
///
/// Whatever predicate the goal test computes, the result is what
/// `first_found` gives for that predicate from the route that stands at
/// `start`.
pub fn depth_first<N, C, G>(
    graph: &StateGraph<N, C>,
    start: N,
    depth_limit: Option<usize>,
    is_goal_state: G,
) -> (found: Option<SearchResult<N, C>>) where
    N: Copy + PartialEq,
    C: HasZero,
    G: Fn(N) -> bool,

    requires
        obeys_concrete_eq::<N>(),
        graph.fits(start, graph.node_seq().len()),
        forall|node: N| is_goal_state.requires((node,)),
    ensures
        match found {
            Some(route) => {
                &&& graph.records(start, route@)
                &&& accepts(is_goal_state, route.node)
                &&& passed(is_goal_state, route.path@)
                &&& route.path@.no_duplicates()
                &&& within_depth(depth_limit, route.path@.len())
            },
            None => forall|p: Seq<N>| #[trigger]
                in_scope(graph.forward(), start, depth_limit, p) ==> rejects(
                    is_goal_state,
                    p.last(),
                ),
        },
        forall|goal: spec_fn(N) -> bool| #[trigger]
            computes(is_goal_state, goal) ==> route_of(found) == first_found(
                graph.adjacency(),
                graph.node_seq().len(),
                depth_limit,
                goal,
                origin(start),
            ),
{
    search_to_depth(graph, start, depth_limit, &is_goal_state)
}

/// The search that `depth_first` describes, with a goal test that the caller
/// keeps.
pub(crate) fn search_to_depth<N, C, G>(
    graph: &StateGraph<N, C>,
    start: N,
    depth_limit: Option<usize>,
    is_goal_state: &G,
) -> (found: Option<SearchResult<N, C>>) where
    N: Copy + PartialEq,
    C: HasZero,
    G: Fn(N) -> bool,

    requires
        obeys_concrete_eq::<N>(),
        graph.fits(start, graph.node_seq().len()),
        forall|node: N| is_goal_state.requires((node,)),
    ensures
        match found {
            Some(route) => {
                &&& graph.records(start, route@)
                &&& accepts(*is_goal_state, route.node)
                &&& passed(*is_goal_state, route.path@)
                &&& route.path@.no_duplicates()
                &&& within_depth(depth_limit, route.path@.len())
            },
            None => forall|p: Seq<N>| #[trigger]
                in_scope(graph.forward(), start, depth_limit, p) ==> rejects(
                    *is_goal_state,
                    p.last(),
                ),
        },
        forall|goal: spec_fn(N) -> bool| #[trigger]
            computes(*is_goal_state, goal) ==> route_of(found) == first_found(
                graph.adjacency(),
                graph.node_seq().len(),
                depth_limit,
                goal,
                origin(start),
            ),
{
    let ghost edges = graph.forward();
    let ghost adj = graph.adjacency();
    let ghost nodes = graph.node_seq();
    proof {
        use_type_invariant(graph);
        lemma_closed_within(nodes, graph.adjacency());
    }
    let mut frontier: Vec<SearchResult<N, C>> = Vec::new();
    frontier.push(SearchResult::at_start(start));
    let none: Vec<(N, C)> = Vec::new();
    proof {
        let stack = routes(frontier@);
        assert(stack[0].path =~= seq![start]);
        assert forall|p: Seq<N>| #[trigger] in_scope(edges, start, depth_limit, p) implies pending(
            stack,
            p,
        ) by {
            assert(p.take(1) =~= stack[0].path);
            assert(stack[0].path.is_prefix_of(p));
        }
        lemma_stack_bound_nonnegative(stack, nodes.len());
        lemma_stack_push(adj, nodes.len(), depth_limit, Seq::empty(), origin(start));
        assert(stack =~= Seq::empty().push(origin(start)));
    }
    while frontier.len() > 0
        invariant
            obeys_concrete_eq::<N>(),
            graph.wf(),
            edges == graph.forward(),
            nodes == graph.node_seq(),
            none@.len() == 0,
            within(edges, nodes),
            graph.fits(start, nodes.len()),
            forall|node: N| is_goal_state.requires((node,)),
            forall|i: int|
                0 <= i < frontier.len() ==> direct(edges, start, (#[trigger] frontier[i])@)
                    && passed(*is_goal_state, frontier[i].path@) && within_depth(
                    depth_limit,
                    frontier[i].path@.len(),
                ),
            forall|p: Seq<N>| #[trigger]
                in_scope(edges, start, depth_limit, p) ==> rejects(*is_goal_state, p.last())
                    || pending(routes(frontier@), p),
            stack_bound(routes(frontier@), nodes.len()) >= 0,
            adj == graph.adjacency(),
            forall|goal: spec_fn(N) -> bool| #[trigger]
                computes(*is_goal_state, goal) ==> first_on_stack(
                    adj,
                    nodes.len(),
                    depth_limit,
                    goal,
                    routes(frontier@),
                ) == first_found(adj, nodes.len(), depth_limit, goal, origin(start)),
        decreases stack_bound(routes(frontier@), nodes.len()),
    {
        let ghost stack = routes(frontier@);
        let ghost before = frontier@;
        let parent = frontier.pop().unwrap();
        let ghost rest = routes(frontier@);
        let ghost length = parent.path@.len();
        proof {
            assert(parent == before[before.len() - 1]);
            assert(rest =~= stack.drop_last());
            assert(stack.last() == parent@);
            assert(direct(edges, start, parent@));
            lemma_simple_walk_bound(edges, nodes, parent.path@);
            lemma_stack_bound_nonnegative(rest, nodes.len());
            lemma_subtree_bound(nodes.len(), length, 0);
            assert(0 * subtree_bound(nodes.len(), length + 1) == 0) by (nonlinear_arith);
            assert(stack_bound(stack, nodes.len()) == stack_bound(rest, nodes.len())
                + subtree_bound(nodes.len(), length));
            assert forall|i: int| 0 <= i < frontier.len() implies frontier[i] == before[i] by {}
            lemma_stack_push(adj, nodes.len(), depth_limit, rest, parent@);
            assert(stack =~= rest.push(parent@));
        }
        if is_goal_state(parent.node) {
            return Some(parent);
        }
        let pruned = match depth_limit {
            Some(limit) => parent.path.len() >= limit,
            None => false,
        };
        if pruned {
            proof {
                assert forall|p: Seq<N>| #[trigger]
                    in_scope(edges, start, depth_limit, p) implies rejects(
                    *is_goal_state,
                    p.last(),
                ) || pending(rest, p) by {
                    if !rejects(*is_goal_state, p.last()) {
                        let i = choose|i: int|
                            0 <= i < stack.len() && (#[trigger] stack[i]).path.is_prefix_of(p);
                        if i == stack.len() - 1 {
                            assert(p.len() == length);
                            assert(p =~= parent.path@);
                        } else {
                            assert(rest[i] == stack[i]);
                        }
                    }
                }
            }
        } else {
            let children = graph.successors(parent.node, &none);
            proof {
                lemma_degree_bound(edges, nodes, parent.node, children@);
            }
            let ghost mut pushed: nat = 0;
            let mut i: usize = 0;
            proof {
                assert(0 * subtree_bound(nodes.len(), length + 1) == 0) by (nonlinear_arith);
                assert forall|p: Seq<N>| #[trigger]
                    in_scope(edges, start, depth_limit, p) implies rejects(
                    *is_goal_state,
                    p.last(),
                ) || pending(rest, p) || (parent.path@.is_prefix_of(p) && p.len() > length
                    && exists|j: int|
                    0 <= j < children.len() && (#[trigger] children[j]).0 == p[length as int]) by {
                    if !rejects(*is_goal_state, p.last()) {
                        let k = choose|k: int|
                            0 <= k < stack.len() && (#[trigger] stack[k]).path.is_prefix_of(p);
                        if k == stack.len() - 1 {
                            if p.len() == length {
                                assert(p =~= parent.path@);
                            } else {
                                assert(super::walk::hop(edges, p, length - 1) is Some);
                                assert(p[length - 1] == parent.path@[length - 1]);
                            }
                        } else {
                            assert(rest[k] == stack[k]);
                        }
                    }
                }
            }
            while i < children.len()
                invariant
                    i <= children.len(),
                    obeys_concrete_eq::<N>(),
                    edges == graph.forward(),
                    nodes == graph.node_seq(),
                    within(edges, nodes),
                    graph.fits(start, nodes.len()),
                    enumerates(edges, parent.node, children@),
                    children.len() <= nodes.len(),
                    length == parent.path@.len(),
                    direct(edges, start, parent@),
                    passed(*is_goal_state, parent.path@),
                    rejects(*is_goal_state, parent.node),
                    depth_limit matches Some(limit) ==> length < limit,
                    forall|k: int|
                        0 <= k < frontier.len() ==> direct(edges, start, (#[trigger] frontier[k])@)
                            && passed(*is_goal_state, frontier[k].path@) && within_depth(
                            depth_limit,
                            frontier[k].path@.len(),
                        ),
                    forall|p: Seq<N>| #[trigger]
                        in_scope(edges, start, depth_limit, p) ==> rejects(*is_goal_state, p.last())
                            || pending(routes(frontier@), p) || (parent.path@.is_prefix_of(p)
                            && p.len() > length && exists|j: int|
                            i <= j < children.len() && (#[trigger] children[j]).0
                                == p[length as int]),
                    pushed <= i,
                    pushed > 0 ==> length + 1 <= nodes.len(),
                    adj == graph.adjacency(),
                    children@ == neighbours_of(adj, parent.node),
                    forall|goal: spec_fn(N) -> bool| #[trigger]
                        computes(*is_goal_state, goal) ==> first_on_stack(
                            adj,
                            nodes.len(),
                            depth_limit,
                            goal,
                            routes(frontier@),
                        ) == or_else(
                            first_found_beyond(
                                adj,
                                nodes.len(),
                                depth_limit,
                                goal,
                                parent@,
                                i as nat,
                            ),
                            first_on_stack(adj, nodes.len(), depth_limit, goal, rest),
                        ),
                    stack_bound(routes(frontier@), nodes.len()) == stack_bound(rest, nodes.len())
                        + pushed * subtree_bound(nodes.len(), length + 1),
                decreases children.len() - i,
            {
                let (child, edge_cost) = children[i];
                let ghost held = routes(frontier@);
                let ghost old_frontier = frontier@;
                proof {
                    assert(edges(parent.node, child) == Some(edge_cost));
                }
                if !contains_node(parent.path.as_slice(), child) {
                    proof {
                        let q = parent.path@.push(child);
                        lemma_walk_push(edges, parent.path@, child);
                        assert(q.no_duplicates()) by {
                            assert forall|a: int, b: int|
                                0 <= a < q.len() && 0 <= b < q.len() && a != b implies q[a]
                                != q[b] by {
                                if a < length && b < length {
                                    assert(parent.path@[a] != parent.path@[b]);
                                } else if a < length {
                                    assert(parent.path@.contains(parent.path@[a]));
                                } else {
                                    assert(parent.path@.contains(parent.path@[b]));
                                }
                            }
                        }
                        lemma_simple_walk_bound(edges, nodes, q);
                        assert(is_walk(edges, q));
                    }
                    let next = parent.step_to(child, parent.cost.plus(edge_cost));
                    proof {
                        assert(passed(*is_goal_state, next.path@)) by {
                            assert forall|k: int| 0 <= k < next.path@.len() - 1 implies rejects(
                                *is_goal_state,
                                #[trigger] next.path@[k],
                            ) by {
                                if k < length - 1 {
                                    assert(rejects(*is_goal_state, parent.path@[k]));
                                }
                            }
                        }
                    }
                    frontier.push(next);
                    proof {
                        let grown = routes(frontier@);
                        assert(grown =~= held.push(next@));
                        assert(grown.drop_last() =~= held);
                        lemma_stack_push(adj, nodes.len(), depth_limit, held, next@);
                        assert(next@ == onward(adj, parent@, i as int));
                        assert((pushed + 1) * subtree_bound(nodes.len(), length + 1) == pushed
                            * subtree_bound(nodes.len(), length + 1) + subtree_bound(
                            nodes.len(),
                            length + 1,
                        )) by (nonlinear_arith);
                        assert forall|k: int| 0 <= k < frontier.len() implies direct(
                            edges,
                            start,
                            (#[trigger] frontier[k])@,
                        ) && passed(*is_goal_state, frontier[k].path@) && within_depth(
                            depth_limit,
                            frontier[k].path@.len(),
                        ) by {
                            if k < old_frontier.len() {
                                assert(frontier[k] == old_frontier[k]);
                            }
                        }
                        assert forall|p: Seq<N>| #[trigger]
                            in_scope(edges, start, depth_limit, p) implies rejects(
                            *is_goal_state,
                            p.last(),
                        ) || pending(grown, p) || (parent.path@.is_prefix_of(p) && p.len() > length
                            && exists|j: int|
                            i + 1 <= j < children.len() && (#[trigger] children[j]).0
                                == p[length as int]) by {
                            if rejects(*is_goal_state, p.last()) {
                            } else if pending(held, p) {
                                let k = choose|k: int|
                                    0 <= k < held.len() && (#[trigger] held[k]).path.is_prefix_of(p);
                                assert(grown[k] == held[k]);
                            } else {
                                let j = choose|j: int|
                                    i <= j < children.len() && (#[trigger] children[j]).0
                                        == p[length as int];
                                if j == i {
                                    assert(p.take(length as int + 1) =~= next.path@);
                                    assert(grown[held.len() as int].path.is_prefix_of(p));
                                }
                            }
                        }
                        pushed = pushed + 1;
                    }
                } else {
                    proof {
                        assert forall|p: Seq<N>| #[trigger]
                            in_scope(edges, start, depth_limit, p) implies rejects(
                            *is_goal_state,
                            p.last(),
                        ) || pending(held, p) || (parent.path@.is_prefix_of(p) && p.len() > length
                            && exists|j: int|
                            i + 1 <= j < children.len() && (#[trigger] children[j]).0
                                == p[length as int]) by {
                            if !rejects(*is_goal_state, p.last()) && !pending(held, p) {
                                let j = choose|j: int|
                                    i <= j < children.len() && (#[trigger] children[j]).0
                                        == p[length as int];
                                if j == i {
                                    let k = choose|k: int|
                                        0 <= k < length && parent.path@[k] == child;
                                    assert(p[k] == p[length as int]);
                                }
                            }
                        }
                    }
                }
                i += 1;
            }
            proof {
                lemma_subtree_bound(nodes.len(), length, pushed);
                lemma_stack_bound_nonnegative(routes(frontier@), nodes.len());
            }
        }
    }
    None
}

/// What depth-first search finds from the routes of a stack on: what it
/// finds from the top one on, and failing that from the ones below.
spec fn first_on_stack<N, C: HasZero>(
    adj: Seq<(N, Seq<(N, C)>)>,
    count: nat,
    depth_limit: Option<usize>,
    goal: spec_fn(N) -> bool,
    stack: Seq<Route<N>>,
) -> Option<Route<N>>
    decreases stack.len(),
{
    if stack.len() == 0 {
        None
    } else {
        let top = first_found(adj, count, depth_limit, goal, stack.last());
        if top is Some {
            top
        } else {
            first_on_stack(adj, count, depth_limit, goal, stack.drop_last())
        }
    }
}

/// `first`, and failing that `second`.
spec fn or_else<N>(first: Option<Route<N>>, second: Option<Route<N>>) -> Option<Route<N>> {
    if first is Some {
        first
    } else {
        second
    }
}

/// A route put on the stack is searched before the routes below it.
proof fn lemma_stack_push<N, C: HasZero>(
    adj: Seq<(N, Seq<(N, C)>)>,
    count: nat,
    depth_limit: Option<usize>,
    stack: Seq<Route<N>>,
    route: Route<N>,
)
    ensures
        forall|goal: spec_fn(N) -> bool| #[trigger]
            first_on_stack(adj, count, depth_limit, goal, stack.push(route)) == or_else(
                first_found(adj, count, depth_limit, goal, route),
                first_on_stack(adj, count, depth_limit, goal, stack),
            ),
{
    assert(stack.push(route).drop_last() =~= stack);
}

/// Some route on the stack has a path that `p` begins with.
spec fn pending<N>(stack: Seq<Route<N>>, p: Seq<N>) -> bool {
    exists|i: int| 0 <= i < stack.len() && (#[trigger] stack[i]).path.is_prefix_of(p)
}

/// A bound on the number of routes that the search can still take off the
/// stack once it holds a route of `len` nodes, in a graph of `count` nodes.
spec fn subtree_bound(count: nat, len: nat) -> int {
    pow((count + 1) as int, (count + 1 - len) as nat)
}

/// The sum of the bounds of the routes on the stack.
spec fn stack_bound<N>(stack: Seq<Route<N>>, count: nat) -> int
    decreases stack.len(),
{
    if stack.len() == 0 {
        0
    } else {
        stack_bound(stack.drop_last(), count) + subtree_bound(count, stack.last().path.len())
    }
}

/// The bound of a stack is no negative number.
proof fn lemma_stack_bound_nonnegative<N>(stack: Seq<Route<N>>, count: nat)
    ensures
        stack_bound(stack, count) >= 0,
    decreases stack.len(),
{
    if stack.len() > 0 {
        lemma_stack_bound_nonnegative(stack.drop_last(), count);
        lemma_pow_positive((count + 1) as int, (count + 1 - stack.last().path.len()) as nat);
    }
}

/// A route of `len` nodes is bounded by more than `count` routes of
/// `len + 1` nodes are together.
proof fn lemma_subtree_bound(count: nat, len: nat, pushed: nat)
    requires
        pushed <= count,
        pushed > 0 ==> len + 1 <= count,
    ensures
        pushed * subtree_bound(count, len + 1) < subtree_bound(count, len),
{
    let base = (count + 1) as int;
    lemma_pow_positive(base, (count + 1 - len) as nat);
    if pushed > 0 {
        let e = (count - len) as nat;
        let x = pow(base, e);
        lemma_pow_positive(base, e);
        assert(pow(base, (e + 1) as nat) == base * x) by {
            reveal(pow);
        }
        assert(pushed * x < base * x) by (nonlinear_arith)
            requires
                0 <= pushed < base,
                x > 0,
        ;
    } else {
        assert(pushed * subtree_bound(count, len + 1) == 0) by (nonlinear_arith)
            requires
                pushed == 0,
        ;
    }
}

/// The edges that leave a node are no more than the graph has nodes.
proof fn lemma_degree_bound<N, C>(
    edges: spec_fn(N, N) -> Option<C>,
    nodes: Seq<N>,
    node: N,
    list: Seq<(N, C)>,
)
    requires
        within(edges, nodes),
        enumerates(edges, node, list),
        distinct_keys(list),
    ensures
        list.len() <= nodes.len(),
{
    let keys = list.map_values(|e: (N, C)| e.0);
    assert(keys.no_duplicates()) by {
        assert forall|a: int, b: int| 0 <= a < keys.len() && 0 <= b < keys.len() && a != b implies keys[a]
            != keys[b] by {
            if a < b {
                assert(list[a].0 != list[b].0);
            } else {
                assert(list[b].0 != list[a].0);
            }
        }
    }
    assert forall|i: int| 0 <= i < keys.len() implies nodes.contains(#[trigger] keys[i]) by {
        assert(edges(node, list[i].0) == Some(list[i].1));
    }
    lemma_distinct_bound(nodes, keys);
}

} // verus!
