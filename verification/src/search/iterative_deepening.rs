//! Iterative deepening: depth-first search under a growing depth limit.

use super::adjacency::lemma_closed_within;
use super::cost::HasZero;
use super::depth_first::{first_found, in_scope, search_to_depth, within_depth};
use super::goal::{accepts, computes, passed, rejects};
use super::result::{origin, Route, route_of, SearchResult};
use super::state_graph::StateGraph;
use super::walk::{lemma_shortcut, lemma_simple_walk_bound};
use vstd::laws_eq::obeys_concrete_eq;
use vstd::prelude::*;

verus! {

/// The highest depth limit that iterative deepening tries in a graph of
/// `count` nodes: `depth_limit`, but no more than the graph has nodes, nor
/// less than one where there is no limit.
pub open spec fn deepest_limit(count: nat, depth_limit: Option<usize>) -> nat {
    let longest = if count == 0 {
        1
    } else {
        count
    };
    match depth_limit {
        Some(limit) => if limit < longest {
            limit as nat
        } else {
            longest
        },
        None => longest,
    }
}

/// What iterative deepening finds from the depth limit `bound` on: what
/// depth-first search finds under that limit, and failing that what it finds
/// under the limits that follow, up to `deepest`.
pub open spec fn first_deepening<N, C: HasZero>(
    adj: Seq<(N, Seq<(N, C)>)>,
    count: nat,
    deepest: nat,
    goal: spec_fn(N) -> bool,
    start: N,
    bound: nat,
) -> Option<Route<N>>
    decreases deepest - bound,
{
    let found = first_found(adj, count, Some(bound as usize), goal, origin(start));
    if found is Some || bound >= deepest {
        found
    } else {
        first_deepening(adj, count, deepest, goal, start, bound + 1)
    }
}

/// Searches depth-first from `start` under the depth limits 0, 1, 2 and so
/// on, and returns the first result. It gives up with `None` once the limit
/// in use has reached `depth_limit`, or the number of the graph's nodes: no
/// path that visits no node twice is longer than that, so a higher limit
/// finds nothing new.
///
/// No walk from `start` to a node that the test cannot reject has fewer nodes
/// than the result.
///
/// Whatever predicate the goal test computes, the result is what
/// `first_deepening` gives for that predicate from the depth limit 0 on.
pub fn iterative_deepening<N, C, G>(
    graph: &StateGraph<N, C>,
    start: N,
    depth_limit: Option<usize>,
    is_goal_state: G,
) -> (found: Option<SearchResult<N, C>>) where
    N: Copy + PartialEq,
    C: HasZero,
    G: Fn(N) -> bool,

    requires
        obeys_concrete_eq::<N>(),
        graph.fits(start, graph.node_seq().len()),
        forall|node: N| is_goal_state.requires((node,)),
    ensures
        match found {
            Some(route) => {
                &&& graph.records(start, route@)
                &&& accepts(is_goal_state, route.node)
                &&& passed(is_goal_state, route.path@)
                &&& route.path@.no_duplicates()
                &&& within_depth(depth_limit, route.path@.len())
                &&& forall|p: Seq<N>| #[trigger]
                    graph.is_walk(p) && p[0] == start && !rejects(is_goal_state, p.last())
                        ==> route.path@.len() <= p.len()
            },
            None => forall|p: Seq<N>| #[trigger]
                in_scope(graph.forward(), start, depth_limit, p) ==> rejects(
                    is_goal_state,
                    p.last(),
                ),
        },
        forall|goal: spec_fn(N) -> bool| #[trigger]
            computes(is_goal_state, goal) ==> route_of(found) == first_deepening(
                graph.adjacency(),
                graph.node_seq().len(),
                deepest_limit(graph.node_seq().len(), depth_limit),
                goal,
                start,
                0,
            ),
{
    let ghost edges = graph.forward();
    let ghost adj = graph.adjacency();
    let ghost nodes = graph.node_seq();
    let node_count = graph.nodes().len();
    proof {
        use_type_invariant(graph);
        lemma_closed_within(nodes, graph.adjacency());
    }
    let longest: usize = if node_count == 0 {
        1
    } else {
        node_count
    };
    let deepest: usize = match depth_limit {
        Some(limit) => if limit < longest {
            limit
        } else {
            longest
        },
        None => longest,
    };
    let mut max_depth: usize = 0;
    loop
        invariant
            obeys_concrete_eq::<N>(),
            graph.wf(),
            edges == graph.forward(),
            nodes == graph.node_seq(),
            super::walk::within(edges, nodes),
            graph.fits(start, nodes.len()),
            forall|node: N| is_goal_state.requires((node,)),
            max_depth <= deepest,
            depth_limit matches Some(limit) ==> deepest <= limit,
            deepest <= longest,
            nodes.len() <= longest,
            1 <= longest,
            depth_limit is None ==> deepest == longest,
            depth_limit matches Some(limit) ==> deepest == limit || deepest == longest,
            max_depth > 0 ==> forall|p: Seq<N>| #[trigger]
                in_scope(edges, start, Some((max_depth - 1) as usize), p) ==> rejects(
                    is_goal_state,
                    p.last(),
                ),
            adj == graph.adjacency(),
            deepest == deepest_limit(nodes.len(), depth_limit),
            forall|goal: spec_fn(N) -> bool| #[trigger]
                computes(is_goal_state, goal) ==> first_deepening(
                    adj,
                    nodes.len(),
                    deepest as nat,
                    goal,
                    start,
                    max_depth as nat,
                ) == first_deepening(adj, nodes.len(), deepest as nat, goal, start, 0),
        decreases deepest - max_depth,
    {
        match search_to_depth(graph, start, Some(max_depth), &is_goal_state) {
            Some(route) => {
                proof {
                    assert forall|p: Seq<N>| #[trigger]
                        graph.is_walk(p) && p[0] == start && !rejects(
                            is_goal_state,
                            p.last(),
                        ) implies route.path@.len() <= p.len() by {
                        let q = lemma_shortcut(edges, p);
                        if max_depth > 0 {
                            let below = Some((max_depth - 1) as usize);
                            if q.len() < max_depth {
                                assert(in_scope(edges, start, below, q));
                            }
                        }
                    }
                }
                return Some(route);
            },
            None => {},
        }
        if max_depth >= deepest {
            proof {
                assert forall|p: Seq<N>| #[trigger]
                    in_scope(edges, start, depth_limit, p) implies rejects(
                    is_goal_state,
                    p.last(),
                ) by {
                    lemma_simple_walk_bound(edges, nodes, p);
                    assert(in_scope(edges, start, Some(max_depth), p));
                }
            }
            return None;
        }
        max_depth += 1;
    }
}

} // verus!
