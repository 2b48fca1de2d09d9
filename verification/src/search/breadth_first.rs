//! Breadth-first search: nodes are expanded in the order in which they were
//! first reached.

use std::collections::VecDeque;
use super::adjacency::{lemma_closed_within, neighbours_of, onward};
use super::cost::HasZero;
use super::goal::{accepts, computes, passed, rejects};
use super::relaxation::direct;
use super::result::{origin, Route, route_of, routes, SearchResult};
use super::state_graph::{first_index, is_first, StateGraph};
use super::walk::{
    enumerates, hop, is_walk, joins, lemma_simple_walk_bound, lemma_walk_prefix, lemma_walk_push,
    within,
};
use vstd::laws_eq::obeys_concrete_eq;
use vstd::prelude::*;

verus! {

/// No walk between the ends of `p` has fewer nodes than `p`.
pub open spec fn shortest<N, C>(edges: spec_fn(N, N) -> Option<C>, p: Seq<N>) -> bool {
    forall|r: Seq<N>| #[trigger] joins(edges, r, p[0], p.last()) ==> p.len() <= r.len()
}

/// The graph is layered as seen from `start`: no edge joins two nodes that
/// are equally far from `start`.
pub open spec fn layered<N, C>(edges: spec_fn(N, N) -> Option<C>, start: N) -> bool {
    forall|p: Seq<N>, q: Seq<N>|
        #![trigger shortest(edges, p), shortest(edges, q)]
        is_walk(edges, p) && p[0] == start && shortest(edges, p) && is_walk(edges, q) && q[0]
            == start && shortest(edges, q) && edges(p.last(), q.last()) is Some ==> p.len()
            != q.len()
}

/// The graph is layered as far as the search goes: an edge joins two nodes
/// that are equally far from `start` only where some node that the test
/// cannot reject is no farther.
pub open spec fn layered_up_to_goal<N, C, G: Fn(N) -> bool>(
    edges: spec_fn(N, N) -> Option<C>,
    start: N,
    is_goal: G,
) -> bool {
    forall|p: Seq<N>, q: Seq<N>|
        #![trigger shortest(edges, p), shortest(edges, q)]
        is_walk(edges, p) && p[0] == start && shortest(edges, p) && is_walk(edges, q) && q[0]
            == start && shortest(edges, q) && edges(p.last(), q.last()) is Some && p.len()
            == q.len() ==> exists|r: Seq<N>|
            #[trigger] is_walk(edges, r) && r[0] == start && !rejects(is_goal, r.last()) && r.len()
                <= p.len()
}

/// What a breadth-first search holds between two nodes: the queue, for each
/// slot the route recorded last, and for each slot whether its node has been
/// on the queue.
pub struct Round<N> {
    pub queue: Seq<N>,
    pub table: Seq<Route<N>>,
    pub seen: Seq<bool>,
}

/// The slot of `node`: its first position in `nodes`.
pub open spec fn slot_of<N>(nodes: Seq<N>, node: N) -> int {
    choose|j: int| is_first(nodes, j) && nodes[j] == node
}

/// The route from which the edges of `node` are followed: the one recorded
/// in its slot, or for a node outside the graph the one that stands at it.
pub open spec fn recorded_for<N>(nodes: Seq<N>, table: Seq<Route<N>>, node: N) -> Route<N> {
    if nodes.contains(node) {
        table[slot_of(nodes, node)]
    } else {
        origin(node)
    }
}

/// What following the edges of the node of `parent`, from the edge at
/// `from` on, finds, and the round that it leaves. An edge to a goal ends the
/// search with the route over it. Any other edge has its route recorded in
/// the slot of the node it leads to, and that node is put on the queue unless
/// it has been there. An edge to a node without a slot, which no graph has,
/// ends the following of edges.
pub open spec fn followed<N, C: HasZero>(
    adj: Seq<(N, Seq<(N, C)>)>,
    nodes: Seq<N>,
    goal: spec_fn(N) -> bool,
    parent: Route<N>,
    from: nat,
    round: Round<N>,
) -> (Option<Route<N>>, Round<N>)
    decreases neighbours_of(adj, parent.node).len() - from,
{
    if from >= neighbours_of(adj, parent.node).len() {
        (None, round)
    } else {
        let next = onward(adj, parent, from as int);
        let slot = slot_of(nodes, next.node);
        if goal(next.node) {
            (Some(next), round)
        } else if !(0 <= slot < round.seen.len()) {
            (None, round)
        } else if round.seen[slot] {
            followed(
                adj,
                nodes,
                goal,
                parent,
                from + 1,
                Round { table: round.table.update(slot, next), ..round },
            )
        } else {
            followed(
                adj,
                nodes,
                goal,
                parent,
                from + 1,
                Round {
                    queue: round.queue.push(next.node),
                    table: round.table.update(slot, next),
                    seen: round.seen.update(slot, true),
                },
            )
        }
    }
}

/// The number of slots whose node has not been put on the queue.
pub open spec fn unseen(seen: Seq<bool>) -> nat
    decreases seen.len(),
{
    if seen.len() == 0 {
        0
    } else {
        unseen(seen.drop_last()) + if seen.last() {
            0nat
        } else {
            1nat
        }
    }
}

/// What breadth-first search finds from `round` on: nothing if the queue is
/// empty; else what following the edges of the first node of the queue
/// finds, and failing that what the search finds from the round that this
/// leaves.
pub open spec fn swept_from<N, C: HasZero>(
    adj: Seq<(N, Seq<(N, C)>)>,
    nodes: Seq<N>,
    goal: spec_fn(N) -> bool,
    round: Round<N>,
) -> Option<Route<N>>
    decreases unseen(round.seen) + round.queue.len(),
{
    if round.queue.len() == 0 {
        None
    } else {
        let parent = recorded_for(nodes, round.table, round.queue[0]);
        let rest = Round { queue: round.queue.drop_first(), ..round };
        let (found, after) = followed(adj, nodes, goal, parent, 0, rest);
        proof {
            lemma_followed_weight(adj, nodes, goal, parent, 0, rest);
        }
        if found is Some {
            found
        } else {
            swept_from(adj, nodes, goal, after)
        }
    }
}

/// The round in which a search from `start` begins: `start` alone on the
/// queue, and in every slot the route that stands at the slot's node.
pub open spec fn first_round<N>(nodes: Seq<N>, start: N) -> Round<N> {
    Round {
        queue: seq![start],
        table: Seq::new(nodes.len(), |j: int| origin(nodes[j])),
        seen: Seq::new(nodes.len(), |j: int| is_first(nodes, j) && nodes[j] == start),
    }
}

/// What breadth-first search from `start` finds: the route that stands at
/// `start` if `start` is a goal, else what the search finds from its first
/// round on.
pub open spec fn first_swept<N, C: HasZero>(
    adj: Seq<(N, Seq<(N, C)>)>,
    nodes: Seq<N>,
    goal: spec_fn(N) -> bool,
    start: N,
) -> Option<Route<N>> {
    if goal(start) {
        Some(origin(start))
    } else {
        swept_from(adj, nodes, goal, first_round(nodes, start))
    }
}

/// Searches from `start` for a node that `is_goal_state` calls a goal,
/// level by level.
///
/// If `start` is a goal, the result stands at `start`. Else the search keeps
/// a queue of nodes, at first `start` alone, and for every node of the graph
/// the route recorded for it last. It takes the first node off the queue and
/// follows its edges in the order in which they were recorded. Each leads to
/// a neighbour over the node's route: if the neighbour is a goal, that is
/// the result. Else the route is recorded for the neighbour, in place of any
/// recorded before, and the neighbour joins the queue unless it has been on
/// it already. `None` comes back once the queue is empty.
///
/// Because a later route replaces an earlier one, the result need not have
/// the fewest edges. It has where the graph is layered up to the goal: where
/// no edge joins two nodes that are equally far from `start` and nearer to it
/// than every goal.
///
/// Whatever predicate the goal test computes, the result is what
/// `first_swept` gives for that predicate.
pub fn breadth_first<N, C, G>(graph: &StateGraph<N, C>, start: N, is_goal_state: G) -> (found:
    Option<SearchResult<N, C>>) where N: Copy + PartialEq, C: HasZero, G: Fn(N) -> bool
    requires
        obeys_concrete_eq::<N>(),
        graph.fits(start, graph.node_seq().len()),
        forall|node: N| is_goal_state.requires((node,)),
    ensures
        match found {
            Some(route) => {
                &&& graph.records(start, route@)
                &&& accepts(is_goal_state, route.node)
                &&& passed(is_goal_state, route.path@)
                &&& layered_up_to_goal(graph.forward(), start, is_goal_state) ==> forall|
                    p: Seq<N>,
                | #[trigger]
                    graph.is_walk(p) && p[0] == start && !rejects(is_goal_state, p.last())
                        ==> route.path@.len() <= p.len()
            },
            None => forall|p: Seq<N>| #[trigger]
                graph.is_walk(p) && p[0] == start ==> rejects(is_goal_state, p.last()),
        },
        forall|goal: spec_fn(N) -> bool| #[trigger]
            computes(is_goal_state, goal) ==> route_of(found) == first_swept(
                graph.adjacency(),
                graph.node_seq(),
                goal,
                start,
            ),
{
    if is_goal_state(start) {
        return Some(SearchResult::at_start(start));
    }
    let ghost edges = graph.forward();
    let ghost adj = graph.adjacency();
    let nodes = graph.nodes();
    proof {
        use_type_invariant(graph);
        lemma_closed_within(nodes@, graph.adjacency());
    }
    let mut reached: Vec<SearchResult<N, C>> = Vec::new();
    let mut seen: Vec<bool> = Vec::new();
    let mut k: usize = 0;
    while k < nodes.len()
        invariant
            k <= nodes.len(),
            reached.len() == k,
            seen.len() == k,
            forall|j: int|
                0 <= j < k ==> (#[trigger] reached[j])@ == (Route {
                    node: nodes[j],
                    cost: 0,
                    path: seq![nodes[j]],
                }),
            forall|j: int| 0 <= j < k ==> !(#[trigger] seen[j]),
        decreases nodes.len() - k,
    {
        reached.push(SearchResult::at_start(nodes[k]));
        seen.push(false);
        k += 1;
    }
    match first_index(nodes, start) {
        Some(j) => {
            seen[j] = true;
            proof {
                assert forall|i: int| is_first(nodes@, i) && nodes[i] == start implies i == j by {
                    lemma_first_is_unique(nodes@, i, j as int);
                }
            }
        },
        None => {},
    }
    let mut node_queue: VecDeque<N> = VecDeque::new();
    node_queue.push_back(start);
    let ghost mut closed: Set<N> = Set::empty();
    let ghost mut tree: Map<N, Seq<N>> = Map::empty().insert(start, seq![start]);
    let none: Vec<(N, C)> = Vec::new();
    proof {
        let s = Sweep { queue: node_queue@, table: routes(reached@), seen: seen@, closed, tree };
        lemma_sweep_starts(edges, nodes@, start, is_goal_state, s);
        let first = first_round(nodes@, start);
        assert(node_queue@ =~= first.queue);
        assert(routes(reached@) =~= first.table);
        assert(seen@ =~= first.seen);
    }
    while node_queue.len() > 0
        invariant
            obeys_concrete_eq::<N>(),
            graph.wf(),
            edges == graph.forward(),
            nodes@ == graph.node_seq(),
            none@.len() == 0,
            within(edges, nodes@),
            graph.fits(start, nodes@.len()),
            forall|node: N| is_goal_state.requires((node,)),
            reached.len() == nodes.len(),
            seen.len() == nodes.len(),
            sweeping(
                edges,
                nodes@,
                start,
                is_goal_state,
                closed,
                Sweep { queue: node_queue@, table: routes(reached@), seen: seen@, closed, tree },
            ),
            adj == graph.adjacency(),
            forall|goal: spec_fn(N) -> bool| #[trigger]
                computes(is_goal_state, goal) ==> swept_from(
                    adj,
                    nodes@,
                    goal,
                    Round { queue: node_queue@, table: routes(reached@), seen: seen@ },
                ) == first_swept(adj, nodes@, goal, start),
        decreases unseen(seen@) + node_queue.len(),
    {
        let ghost s = Sweep {
            queue: node_queue@,
            table: routes(reached@),
            seen: seen@,
            closed,
            tree,
        };
        let parent_node = node_queue.pop_front().unwrap();
        let parent = match first_index(nodes, parent_node) {
            Some(j) => {
                proof {
                    lemma_slot(nodes@, parent_node, j as int);
                }
                reached[j].duplicate()
            },
            None => SearchResult::at_start(parent_node),
        };
        assert(parent@ == recorded_for(nodes@, s.table, parent_node));
        let ghost done = closed;
        proof {
            lemma_sweep_pops(edges, nodes@, start, is_goal_state, s, parent@);
            closed = closed.insert(parent_node);
            assert(popped(s) == Sweep {
                queue: node_queue@,
                table: routes(reached@),
                seen: seen@,
                closed,
                tree,
            });
        }
        let children = graph.successors(parent_node, &none);
        let ghost weight = unseen(seen@) + node_queue.len();
        let mut i: usize = 0;
        while i < children.len()
            invariant
                i <= children.len(),
                obeys_concrete_eq::<N>(),
                edges == graph.forward(),
                nodes@ == graph.node_seq(),
                within(edges, nodes@),
                graph.fits(start, nodes@.len()),
                forall|node: N| is_goal_state.requires((node,)),
                enumerates(edges, parent_node, children@),
                parent.node == parent_node,
                direct(edges, start, parent@),
                reached.len() == nodes.len(),
                seen.len() == nodes.len(),
                sweeping(
                    edges,
                    nodes@,
                    start,
                    is_goal_state,
                    done,
                    Sweep { queue: node_queue@, table: routes(reached@), seen: seen@, closed, tree },
                ),
                expanding(
                    edges,
                    start,
                    is_goal_state,
                    done,
                    Sweep { queue: node_queue@, table: routes(reached@), seen: seen@, closed, tree },
                    parent@,
                ),
                tree.dom().contains(parent_node),
                forall|j: int|
                    0 <= j < i ==> tree.dom().contains((#[trigger] children[j]).0)
                        && tree[children[j].0].len() <= tree[parent_node].len() + 1,
                unseen(seen@) + node_queue.len() == weight,
                adj == graph.adjacency(),
                children@ == neighbours_of(adj, parent_node),
                forall|goal: spec_fn(N) -> bool| #[trigger]
                    computes(is_goal_state, goal) ==> finished(
                        adj,
                        nodes@,
                        goal,
                        parent@,
                        i as nat,
                        Round { queue: node_queue@, table: routes(reached@), seen: seen@ },
                    ) == first_swept(adj, nodes@, goal, start),
            decreases children.len() - i,
        {
            let (child, cost) = children[i];
            let ghost t = Sweep {
                queue: node_queue@,
                table: routes(reached@),
                seen: seen@,
                closed,
                tree,
            };
            proof {
                assert(edges(parent_node, child) == Some(cost));
                lemma_walk_push(edges, parent.path@, child);
                lemma_simple_walk_bound(edges, nodes@, parent.path@);
                if parent.path@.len() == 1 {
                    assert(nodes@.contains(parent_node));
                }
                assert(is_walk(edges, parent.path@.push(child)));
            }
            let child_state = parent.step_to(child, parent.cost.plus(cost));
            if is_goal_state(child) {
                proof {
                    assert(child_state@ == onward(adj, parent@, i as int));
                    lemma_sweep_finds(
                        edges,
                        nodes@,
                        start,
                        is_goal_state,
                        done,
                        t,
                        parent@,
                        child,
                    );
                }
                return Some(child_state);
            }
            let slot = first_index(nodes, child).unwrap();
            proof {
                lemma_slot(nodes@, child, slot as int);
                assert(child_state@ == onward(adj, parent@, i as int));
            }
            let ghost round = Round { queue: node_queue@, table: routes(reached@), seen: seen@ };
            reached[slot] = child_state;
            if !seen[slot] {
                proof {
                    lemma_unseen_update(seen@, slot as int);
                }
                seen[slot] = true;
                node_queue.push_back(child);
                proof {
                    tree = tree.insert(child, tree[parent_node].push(child));
                }
            }
            proof {
                let route = routes(reached@)[slot as int];
                lemma_sweep_visits(
                    edges,
                    nodes@,
                    start,
                    is_goal_state,
                    done,
                    t,
                    parent@,
                    slot as int,
                    route,
                );
                let after = Sweep {
                    queue: node_queue@,
                    table: routes(reached@),
                    seen: seen@,
                    closed,
                    tree,
                };
                assert(after.table =~= t.table.update(slot as int, route));
                assert(after == visited(t, slot as int, route, parent_node));
                assert(route == onward(adj, parent@, i as int));
                assert forall|j: int| 0 <= j < i + 1 implies tree.dom().contains(
                    (#[trigger] children[j]).0,
                ) && tree[children[j].0].len() <= tree[parent_node].len() + 1 by {
                    if j < i {
                        assert(t.tree.dom().contains(children[j].0));
                    }
                }
            }
            i += 1;
        }
        proof {
            let t = Sweep {
                queue: node_queue@,
                table: routes(reached@),
                seen: seen@,
                closed,
                tree,
            };
            lemma_sweep_closes(edges, nodes@, start, is_goal_state, done, t, parent@, children@);
        }
    }
    proof {
        let s = Sweep { queue: node_queue@, table: routes(reached@), seen: seen@, closed, tree };
        assert forall|p: Seq<N>| #[trigger] graph.is_walk(p) && p[0] == start implies rejects(
            is_goal_state,
            p.last(),
        ) by {
            lemma_swept(edges, nodes@, start, is_goal_state, s, p);
        }
    }
    None
}

/// A layered graph is layered as far as any search goes.
pub proof fn lemma_layered_up_to_goal<N, C, G: Fn(N) -> bool>(
    edges: spec_fn(N, N) -> Option<C>,
    start: N,
    is_goal: G,
)
    requires
        layered(edges, start),
    ensures
        layered_up_to_goal(edges, start, is_goal),
{
}

/// In a graph whose nodes fall on two sides, with every edge leading from
/// one side to the other, the side on which a walk ends is known from the
/// number of its edges.
proof fn lemma_walk_side<N, C>(edges: spec_fn(N, N) -> Option<C>, side: spec_fn(N) -> bool, p: Seq<N>)
    requires
        forall|a: N, b: N| (#[trigger] edges(a, b)) is Some ==> side(a) != side(b),
        is_walk(edges, p),
    ensures
        (side(p.last()) == side(p[0])) <==> (p.len() - 1) % 2 == 0,
    decreases p.len(),
{
    if p.len() > 1 {
        let shorter = p.drop_last();
        assert forall|i: int| 0 <= i < shorter.len() - 1 implies (#[trigger] hop(
            edges,
            shorter,
            i,
        )) is Some by {
            assert(hop(edges, p, i) is Some);
        }
        lemma_walk_side(edges, side, shorter);
        assert(hop(edges, p, p.len() - 2) is Some);
        assert(edges(shorter.last(), p.last()) is Some);
    }
}

/// A graph whose nodes fall on two sides, with every edge leading from one
/// side to the other, is layered as seen from any node.
pub proof fn lemma_two_sided_is_layered<N, C>(
    edges: spec_fn(N, N) -> Option<C>,
    start: N,
    side: spec_fn(N) -> bool,
)
    requires
        forall|a: N, b: N| (#[trigger] edges(a, b)) is Some ==> side(a) != side(b),
    ensures
        layered(edges, start),
{
    assert forall|p: Seq<N>, q: Seq<N>|
        #![trigger shortest(edges, p), shortest(edges, q)]
        is_walk(edges, p) && p[0] == start && shortest(edges, p) && is_walk(edges, q) && q[0]
            == start && shortest(edges, q) && edges(p.last(), q.last()) is Some implies p.len()
        != q.len() by {
        lemma_walk_side(edges, side, p);
        lemma_walk_side(edges, side, q);
    }
}

/// Following edges puts a node on the queue for each slot that it marks as
/// seen.
pub proof fn lemma_followed_weight<N, C: HasZero>(
    adj: Seq<(N, Seq<(N, C)>)>,
    nodes: Seq<N>,
    goal: spec_fn(N) -> bool,
    parent: Route<N>,
    from: nat,
    round: Round<N>,
)
    ensures
        unseen(followed(adj, nodes, goal, parent, from, round).1.seen) + followed(
            adj,
            nodes,
            goal,
            parent,
            from,
            round,
        ).1.queue.len() == unseen(round.seen) + round.queue.len(),
    decreases neighbours_of(adj, parent.node).len() - from,
{
    if from < neighbours_of(adj, parent.node).len() {
        let next = onward(adj, parent, from as int);
        let slot = slot_of(nodes, next.node);
        if goal(next.node) {
        } else if !(0 <= slot < round.seen.len()) {
        } else if round.seen[slot] {
            lemma_followed_weight(
                adj,
                nodes,
                goal,
                parent,
                from + 1,
                Round { table: round.table.update(slot, next), ..round },
            );
        } else {
            lemma_unseen_update(round.seen, slot);
            lemma_followed_weight(
                adj,
                nodes,
                goal,
                parent,
                from + 1,
                Round {
                    queue: round.queue.push(next.node),
                    table: round.table.update(slot, next),
                    seen: round.seen.update(slot, true),
                },
            );
        }
    }
}

/// Putting a node on the queue for the first time leaves one slot less
/// unseen.
proof fn lemma_unseen_update(seen: Seq<bool>, j: int)
    requires
        0 <= j < seen.len(),
        !seen[j],
    ensures
        unseen(seen.update(j, true)) + 1 == unseen(seen),
    decreases seen.len(),
{
    let after = seen.update(j, true);
    if j == seen.len() - 1 {
        assert(after.drop_last() =~= seen.drop_last());
    } else {
        lemma_unseen_update(seen.drop_last(), j);
        assert(after.drop_last() =~= seen.drop_last().update(j, true));
    }
}

/// The slot of a node is the first position at which it is found.
proof fn lemma_slot<N>(nodes: Seq<N>, node: N, j: int)
    requires
        is_first(nodes, j),
        nodes[j] == node,
    ensures
        slot_of(nodes, node) == j,
        nodes.contains(node),
{
    lemma_first_is_unique(nodes, slot_of(nodes, node), j);
}

/// A node has one first position.
proof fn lemma_first_is_unique<N>(nodes: Seq<N>, a: int, b: int)
    requires
        is_first(nodes, a),
        is_first(nodes, b),
        nodes[a] == nodes[b],
    ensures
        a == b,
{
}

/// What the search finds once the edges of the node of `parent` are
/// followed from the edge at `from` on: what following them finds, and
/// failing that what the search finds from the round that this leaves.
spec fn finished<N, C: HasZero>(
    adj: Seq<(N, Seq<(N, C)>)>,
    nodes: Seq<N>,
    goal: spec_fn(N) -> bool,
    parent: Route<N>,
    from: nat,
    round: Round<N>,
) -> Option<Route<N>> {
    let (found, after) = followed(adj, nodes, goal, parent, from, round);
    if found is Some {
        found
    } else {
        swept_from(adj, nodes, goal, after)
    }
}

/// The state of a breadth-first search, as the proofs see it.
#[verifier::reject_recursive_types(N)]
struct Sweep<N> {
    /// The nodes that wait to be expanded, the next one first.
    queue: Seq<N>,
    /// For each node of the graph, the route recorded for it last.
    table: Seq<Route<N>>,
    /// For each node of the graph, whether it has been put on the queue.
    seen: Seq<bool>,
    /// The nodes that have been taken off the queue.
    closed: Set<N>,
    /// For each node that was ever on the queue, the walk by which it was
    /// first reached.
    tree: Map<N, Seq<N>>,
}

/// What holds of the route recorded for a node `q` that waits on the queue:
/// it is a walk from `start` to `q` that visits no node twice, the test has
/// rejected all its nodes before `q`, all of them are closed, and, in a
/// graph that is layered up to the goal, it is as long as the walk by which
/// `q` was first reached.
spec fn slot_ok<N, C: HasZero, G: Fn(N) -> bool>(
    edges: spec_fn(N, N) -> Option<C>,
    start: N,
    is_goal: G,
    s: Sweep<N>,
    route: Route<N>,
    q: N,
) -> bool {
    &&& direct(edges, start, route)
    &&& route.node == q
    &&& passed(is_goal, route.path)
    &&& forall|k: int| 0 <= k < route.path.len() - 1 ==> s.closed.contains(#[trigger] route.path[k])
    &&& layered_up_to_goal(edges, start, is_goal) ==> route.path.len() == s.tree[q].len()
}

/// What holds of a search at any time. `done` holds the closed nodes whose
/// edges have all been followed: all closed nodes, or all but the one that is
/// being expanded.
#[verifier::opaque]
spec fn sweeping<N, C: HasZero, G: Fn(N) -> bool>(
    edges: spec_fn(N, N) -> Option<C>,
    nodes: Seq<N>,
    start: N,
    is_goal: G,
    done: Set<N>,
    s: Sweep<N>,
) -> bool {
    &&& s.table.len() == nodes.len()
    &&& s.seen.len() == nodes.len()
    &&& s.queue.no_duplicates()
    &&& s.tree.dom().contains(start)
    &&& forall|x: N| #[trigger] s.tree.dom().contains(x) ==> x == start || nodes.contains(x)
    &&& forall|x: N| s.queue.contains(x) ==> !s.closed.contains(x)
    &&& forall|x: N| #[trigger]
        s.tree.dom().contains(x) <==> s.closed.contains(x) || s.queue.contains(x)
    &&& forall|x: N| #[trigger]
        s.tree.dom().contains(x) ==> joins(edges, s.tree[x], start, x) && shortest(
            edges,
            s.tree[x],
        ) && rejects(is_goal, x)
    &&& forall|j: int|
        0 <= j < nodes.len() ==> (#[trigger] s.seen[j] <==> is_first(nodes, j)
            && s.tree.dom().contains(nodes[j]))
    &&& forall|u: N, w: N|
        done.contains(u) && (#[trigger] edges(u, w)) is Some ==> s.tree.dom().contains(w)
            && s.tree[w].len() <= s.tree[u].len() + 1
    &&& forall|a: int, b: int|
        0 <= a <= b < s.queue.len() ==> s.tree[#[trigger] s.queue[a]].len() <= s.tree[
        #[trigger] s.queue[b]].len() <= s.tree[s.queue[a]].len() + 1
    &&& forall|x: N, b: int|
        s.closed.contains(x) && 0 <= b < s.queue.len() ==> (#[trigger] s.tree[x]).len()
            <= s.tree[#[trigger] s.queue[b]].len()
    &&& forall|j: int|
        is_first(nodes, j) && s.queue.contains(#[trigger] nodes[j]) ==> slot_ok(
            edges,
            start,
            is_goal,
            s,
            s.table[j],
            nodes[j],
        )
}

/// What holds, beside `sweeping`, while the edges of `parent.node` are being
/// followed: the node is closed, `parent` is the route that was recorded for
/// it when it was taken off the queue, and the nodes on the queue were first
/// reached at its distance from the start or one edge further.
#[verifier::opaque]
spec fn expanding<N, C: HasZero, G: Fn(N) -> bool>(
    edges: spec_fn(N, N) -> Option<C>,
    start: N,
    is_goal: G,
    done: Set<N>,
    s: Sweep<N>,
    parent: Route<N>,
) -> bool {
    &&& s.closed == done.insert(parent.node)
    &&& !done.contains(parent.node)
    &&& direct(edges, start, parent)
    &&& passed(is_goal, parent.path)
    &&& forall|k: int| 0 <= k < parent.path.len() ==> s.closed.contains(#[trigger] parent.path[k])
    &&& layered_up_to_goal(edges, start, is_goal) ==> parent.path.len() == s.tree[
    parent.node].len()
    &&& forall|x: N| done.contains(x) ==> (#[trigger] s.tree[x]).len() <= s.tree[parent.node].len()
    &&& forall|b: int|
        0 <= b < s.queue.len() ==> s.tree[parent.node].len() <= s.tree[#[trigger] s.queue[b]].len()
            <= s.tree[parent.node].len() + 1
}

/// The state once the first node of the queue has been taken off it and
/// closed.
spec fn popped<N>(s: Sweep<N>) -> Sweep<N> {
    Sweep { queue: s.queue.drop_first(), closed: s.closed.insert(s.queue[0]), ..s }
}

/// The state once `route`, which leads over `via` to the node in slot `c`,
/// has been recorded there: the node is put on the queue, as first reached
/// over `via`, unless it has been on it before.
spec fn visited<N>(s: Sweep<N>, c: int, route: Route<N>, via: N) -> Sweep<N> {
    if s.seen[c] {
        Sweep { table: s.table.update(c, route), ..s }
    } else {
        Sweep {
            queue: s.queue.push(route.node),
            table: s.table.update(c, route),
            seen: s.seen.update(c, true),
            closed: s.closed,
            tree: s.tree.insert(route.node, s.tree[via].push(route.node)),
        }
    }
}

/// The first position of a walk that is not in `inside`, where its end is not.
proof fn lemma_first_outside<N>(inside: Set<N>, p: Seq<N>) -> (k: int)
    requires
        p.len() >= 1,
        !inside.contains(p.last()),
    ensures
        0 <= k < p.len(),
        !inside.contains(p[k]),
        forall|i: int| 0 <= i < k ==> inside.contains(#[trigger] p[i]),
    decreases p.len(),
{
    if p.len() == 1 {
        0
    } else if inside.contains(p[0]) {
        let rest = p.drop_first();
        let k = lemma_first_outside(inside, rest);
        assert forall|i: int| 0 <= i < k + 1 implies inside.contains(#[trigger] p[i]) by {
            if i > 0 {
                assert(rest[i - 1] == p[i]);
            }
        }
        k + 1
    } else {
        0
    }
}

/// A walk from the start that leaves the nodes whose edges have all been
/// followed does so at a node that has been put on the queue, and is at
/// least as long up to there as the walk by which that node was first
/// reached.
proof fn lemma_leaves_done<N, C: HasZero, G: Fn(N) -> bool>(
    edges: spec_fn(N, N) -> Option<C>,
    nodes: Seq<N>,
    start: N,
    is_goal: G,
    done: Set<N>,
    s: Sweep<N>,
    p: Seq<N>,
) -> (k: int)
    requires
        sweeping(edges, nodes, start, is_goal, done, s),
        is_walk(edges, p),
        p[0] == start,
        !done.contains(p.last()),
    ensures
        0 <= k < p.len(),
        !done.contains(p[k]),
        s.tree.dom().contains(p[k]),
        s.tree[p[k]].len() <= k + 1,
{
    reveal(sweeping);
    let k = lemma_first_outside(done, p);
    if k > 0 {
        assert(hop(edges, p, k - 1) is Some);
        assert(edges(p[k - 1], p[k]) is Some);
    }
    lemma_walk_prefix(edges, p, k + 1);
    assert(joins(edges, p.take(k + 1), start, p[k]));
    assert(shortest(edges, s.tree[p[k]]));
    k
}

/// Once the queue is empty, the test has rejected every node that a walk
/// from the start leads to.
proof fn lemma_swept<N, C: HasZero, G: Fn(N) -> bool>(
    edges: spec_fn(N, N) -> Option<C>,
    nodes: Seq<N>,
    start: N,
    is_goal: G,
    s: Sweep<N>,
    p: Seq<N>,
)
    requires
        sweeping(edges, nodes, start, is_goal, s.closed, s),
        s.queue.len() == 0,
        is_walk(edges, p),
        p[0] == start,
    ensures
        rejects(is_goal, p.last()),
{
    reveal(sweeping);
    if !s.closed.contains(p.last()) {
        let k = lemma_leaves_done(edges, nodes, start, is_goal, s.closed, s, p);
        assert(s.tree.dom().contains(p[k]));
        assert(!s.queue.contains(p[k]));
    } else {
        assert(s.tree.dom().contains(p.last()));
    }
}

/// A walk from the start to a node that the test cannot reject has more
/// nodes than the walk by which the node that is being expanded was first
/// reached.
proof fn lemma_goal_is_farther<N, C: HasZero, G: Fn(N) -> bool>(
    edges: spec_fn(N, N) -> Option<C>,
    nodes: Seq<N>,
    start: N,
    is_goal: G,
    done: Set<N>,
    s: Sweep<N>,
    parent: Route<N>,
    p: Seq<N>,
)
    requires
        sweeping(edges, nodes, start, is_goal, done, s),
        expanding(edges, start, is_goal, done, s, parent),
        is_walk(edges, p),
        p[0] == start,
        !rejects(is_goal, p.last()),
    ensures
        s.tree[parent.node].len() + 1 <= p.len(),
{
    reveal(sweeping);
    reveal(expanding);
    assert(!done.contains(p.last())) by {
        if done.contains(p.last()) {
            assert(s.closed.contains(p.last()));
            assert(s.tree.dom().contains(p.last()));
        }
    }
    let k = lemma_leaves_done(edges, nodes, start, is_goal, done, s, p);
    assert(rejects(is_goal, p[k]));
    if p[k] != parent.node {
        assert(s.queue.contains(p[k]));
        let b = choose|b: int| 0 <= b < s.queue.len() && s.queue[b] == p[k];
        assert(s.tree[parent.node].len() <= s.tree[s.queue[b]].len());
    }
}

/// The search starts well: the start waits on the queue, rejected, and
/// every slot holds the route that stands at the slot's node.
proof fn lemma_sweep_starts<N, C: HasZero, G: Fn(N) -> bool>(
    edges: spec_fn(N, N) -> Option<C>,
    nodes: Seq<N>,
    start: N,
    is_goal: G,
    s: Sweep<N>,
)
    requires
        rejects(is_goal, start),
        s.queue =~= seq![start],
        s.table.len() == nodes.len(),
        s.seen.len() == nodes.len(),
        forall|j: int|
            0 <= j < nodes.len() ==> (#[trigger] s.table[j]) == (Route {
                node: nodes[j],
                cost: 0,
                path: seq![nodes[j]],
            }),
        forall|j: int|
            0 <= j < nodes.len() ==> (#[trigger] s.seen[j] <==> is_first(nodes, j) && nodes[j]
                == start),
        s.closed =~= Set::empty(),
        s.tree =~= Map::empty().insert(start, seq![start]),
    ensures
        sweeping(edges, nodes, start, is_goal, s.closed, s),
{
    reveal(sweeping);
    assert(s.queue[0] == start);
    assert(s.queue.contains(start));
    assert(s.tree[start] == seq![start]);
    assert(shortest(edges, s.tree[start]));
    assert forall|j: int| is_first(nodes, j) && s.queue.contains(#[trigger] nodes[j]) implies slot_ok(
        edges,
        start,
        is_goal,
        s,
        s.table[j],
        nodes[j],
    ) by {
        assert(s.table[j].path =~= seq![start]);
    }
}

/// The route recorded for the first node of the queue is a walk from the
/// start to that node, of the length at which the node was first reached if
/// the graph is layered up to the goal.
proof fn lemma_sweep_parent<N, C: HasZero, G: Fn(N) -> bool>(
    edges: spec_fn(N, N) -> Option<C>,
    nodes: Seq<N>,
    start: N,
    is_goal: G,
    s: Sweep<N>,
    parent: Route<N>,
)
    requires
        sweeping(edges, nodes, start, is_goal, s.closed, s),
        s.queue.len() > 0,
        s.table.len() == nodes.len(),
        (exists|j: int| is_first(nodes, j) && nodes[j] == s.queue[0] && parent == s.table[j]) || (
        !nodes.contains(s.queue[0]) && parent == origin(s.queue[0])),
    ensures
        slot_ok(edges, start, is_goal, s, parent, s.queue[0]),
        s.tree.dom().contains(s.queue[0]),
        !s.closed.contains(s.queue[0]),
        forall|x: N| s.closed.contains(x) ==> (#[trigger] s.tree[x]).len() <= s.tree[s.queue[0]].len(),
        forall|b: int|
            0 <= b < s.queue.len() ==> s.tree[s.queue[0]].len() <= s.tree[#[trigger] s.queue[b]].len()
                <= s.tree[s.queue[0]].len() + 1,
{
    reveal(sweeping);
    let u = s.queue[0];
    assert(s.queue.contains(u));
    assert(s.tree.dom().contains(u));
    if exists|j: int| is_first(nodes, j) && nodes[j] == u && parent == s.table[j] {
        let j = choose|j: int| is_first(nodes, j) && nodes[j] == u && parent == s.table[j];
        assert(slot_ok(edges, start, is_goal, s, s.table[j], nodes[j]));
    } else {
        assert(!nodes.contains(u));
        assert(u == start);
        assert(parent.path =~= seq![start]);
        assert(s.tree[start].len() >= 1);
        assert(shortest(edges, s.tree[start]));
        assert(joins(edges, parent.path, start, start));
    }
    assert forall|x: N| s.closed.contains(x) implies (#[trigger] s.tree[x]).len() <= s.tree[u].len() by {
        assert(s.tree[x].len() <= s.tree[s.queue[0]].len());
    }
    assert forall|b: int| 0 <= b < s.queue.len() implies s.tree[u].len() <= s.tree[
    #[trigger] s.queue[b]].len() <= s.tree[u].len() + 1 by {
        assert(s.tree[s.queue[0]].len() <= s.tree[s.queue[b]].len() <= s.tree[s.queue[0]].len()
            + 1);
    }
}

/// With the first node of the queue taken off and closed, the search is
/// still in order.
proof fn lemma_sweep_rest<N, C: HasZero, G: Fn(N) -> bool>(
    edges: spec_fn(N, N) -> Option<C>,
    nodes: Seq<N>,
    start: N,
    is_goal: G,
    s: Sweep<N>,
)
    requires
        sweeping(edges, nodes, start, is_goal, s.closed, s),
        s.queue.len() > 0,
    ensures
        sweeping(edges, nodes, start, is_goal, s.closed, popped(s)),
{
    reveal(sweeping);
    let u = s.queue[0];
    let t = popped(s);
    assert(s.queue.contains(u));
    assert(s.tree.dom().contains(u));
    assert forall|x: N| t.queue.contains(x) implies s.queue.contains(x) && x != u by {
        let b = choose|b: int| 0 <= b < t.queue.len() && t.queue[b] == x;
        assert(s.queue[b + 1] == x);
        assert(s.queue[0] != s.queue[b + 1]);
    }
    assert forall|x: N| s.queue.contains(x) && x != u implies t.queue.contains(x) by {
        let b = choose|b: int| 0 <= b < s.queue.len() && s.queue[b] == x;
        assert(b > 0);
        assert(t.queue[b - 1] == x);
    }
    assert(t.queue.no_duplicates()) by {
        assert forall|a: int, b: int|
            0 <= a < t.queue.len() && 0 <= b < t.queue.len() && a != b implies t.queue[a]
            != t.queue[b] by {
            assert(s.queue[a + 1] != s.queue[b + 1]);
        }
    }
    assert forall|a: int, b: int| 0 <= a <= b < t.queue.len() implies t.tree[
    #[trigger] t.queue[a]].len() <= t.tree[#[trigger] t.queue[b]].len() <= t.tree[
    t.queue[a]].len() + 1 by {
        assert(t.queue[a] == s.queue[a + 1] && t.queue[b] == s.queue[b + 1]);
    }
    assert forall|x: N, b: int| t.closed.contains(x) && 0 <= b < t.queue.len() implies (
    #[trigger] t.tree[x]).len() <= t.tree[#[trigger] t.queue[b]].len() by {
        assert(t.queue[b] == s.queue[b + 1]);
        if x == u {
            assert(s.tree[s.queue[0]].len() <= s.tree[s.queue[b + 1]].len());
        }
    }
    assert forall|j: int| is_first(nodes, j) && t.queue.contains(#[trigger] nodes[j]) implies slot_ok(
        edges,
        start,
        is_goal,
        t,
        t.table[j],
        nodes[j],
    ) by {
        assert(slot_ok(edges, start, is_goal, s, s.table[j], nodes[j]));
    }
}

/// Taking the first node off the queue, to follow its edges, keeps the search
/// in order.
proof fn lemma_sweep_pops<N, C: HasZero, G: Fn(N) -> bool>(
    edges: spec_fn(N, N) -> Option<C>,
    nodes: Seq<N>,
    start: N,
    is_goal: G,
    s: Sweep<N>,
    parent: Route<N>,
)
    requires
        sweeping(edges, nodes, start, is_goal, s.closed, s),
        s.queue.len() > 0,
        s.table.len() == nodes.len(),
        (exists|j: int| is_first(nodes, j) && nodes[j] == s.queue[0] && parent == s.table[j]) || (
        !nodes.contains(s.queue[0]) && parent == origin(s.queue[0])),
    ensures
        sweeping(edges, nodes, start, is_goal, s.closed, popped(s)),
        expanding(edges, start, is_goal, s.closed, popped(s), parent),
        direct(edges, start, parent),
        parent.node == s.queue[0],
        s.tree.dom().contains(s.queue[0]),
{
    lemma_sweep_parent(edges, nodes, start, is_goal, s, parent);
    lemma_sweep_rest(edges, nodes, start, is_goal, s);
    let u = s.queue[0];
    let t = popped(s);
    assert(expanding(edges, start, is_goal, s.closed, t, parent)) by {
        reveal(expanding);
        assert(t.closed == s.closed.insert(parent.node));
        assert forall|k: int| 0 <= k < parent.path.len() implies t.closed.contains(
            #[trigger] parent.path[k],
        ) by {
            if k < parent.path.len() - 1 {
                assert(s.closed.contains(parent.path[k]));
            }
        }
        assert forall|b: int| 0 <= b < t.queue.len() implies t.tree[parent.node].len() <= t.tree[
        #[trigger] t.queue[b]].len() <= t.tree[parent.node].len() + 1 by {
            assert(t.queue[b] == s.queue[b + 1]);
        }
    }
}

/// Recording the route to a neighbour of the node that is being expanded,
/// and putting the neighbour on the queue if it is new, keeps the search in
/// order; the neighbour was then first reached at most one edge further from
/// the start than the node.
proof fn lemma_sweep_visits<N, C: HasZero, G: Fn(N) -> bool>(
    edges: spec_fn(N, N) -> Option<C>,
    nodes: Seq<N>,
    start: N,
    is_goal: G,
    done: Set<N>,
    s: Sweep<N>,
    parent: Route<N>,
    c: int,
    route: Route<N>,
)
    requires
        sweeping(edges, nodes, start, is_goal, done, s),
        expanding(edges, start, is_goal, done, s, parent),
        is_first(nodes, c),
        nodes[c] == route.node,
        edges(parent.node, route.node) is Some,
        rejects(is_goal, route.node),
        route.path == parent.path.push(route.node),
        route.cost == parent.cost + super::walk::step(edges, parent.node, route.node),
    ensures
        sweeping(edges, nodes, start, is_goal, done, visited(s, c, route, parent.node)),
        expanding(edges, start, is_goal, done, visited(s, c, route, parent.node), parent),
        visited(s, c, route, parent.node).tree.dom().contains(route.node),
        visited(s, c, route, parent.node).tree[route.node].len() <= s.tree[parent.node].len() + 1,
        forall|x: N| #[trigger]
            s.tree.dom().contains(x) ==> visited(s, c, route, parent.node).tree.dom().contains(x)
                && visited(s, c, route, parent.node).tree[x] == s.tree[x],
        s.tree.dom().contains(parent.node),
{
    reveal(sweeping);
    reveal(expanding);
    let u = parent.node;
    let w = route.node;
    let t = visited(s, c, route, u);
    lemma_walk_push(edges, parent.path, w);
    assert(s.closed.contains(u));
    assert(s.tree.dom().contains(u));
    assert(passed(is_goal, route.path)) by {
        assert forall|k: int| 0 <= k < route.path.len() - 1 implies rejects(
            is_goal,
            #[trigger] route.path[k],
        ) by {
            assert(s.closed.contains(parent.path[k]));
            assert(s.tree.dom().contains(parent.path[k]));
        }
    }
    // Where the neighbour waits on the queue, the new route is as good as
    // the one it replaces.
    if !s.closed.contains(w) {
        assert(!parent.path.contains(w)) by {
            if parent.path.contains(w) {
                let k = choose|k: int| 0 <= k < parent.path.len() && parent.path[k] == w;
                assert(s.closed.contains(parent.path[k]));
            }
        }
        assert(route.path.no_duplicates()) by {
            assert forall|a: int, b: int|
                0 <= a < route.path.len() && 0 <= b < route.path.len() && a != b implies route.path[a]
                != route.path[b] by {
                if a < parent.path.len() && b < parent.path.len() {
                    assert(parent.path[a] != parent.path[b]);
                } else if a < parent.path.len() {
                    assert(parent.path.contains(parent.path[a]));
                } else {
                    assert(parent.path.contains(parent.path[b]));
                }
            }
        }
        assert(direct(edges, start, route));
    }
    if s.seen[c] {
        assert(s.tree.dom().contains(w));
        if s.queue.contains(w) {
            let b = choose|b: int| 0 <= b < s.queue.len() && s.queue[b] == w;
            assert(s.tree[u].len() <= s.tree[s.queue[b]].len() <= s.tree[u].len() + 1);
            if layered_up_to_goal(edges, start, is_goal) && s.tree[u].len() == s.tree[w].len() {
                assert(shortest(edges, s.tree[u]) && shortest(edges, s.tree[w]));
                let r = choose|r: Seq<N>|
                    #[trigger] is_walk(edges, r) && r[0] == start && !rejects(is_goal, r.last())
                        && r.len() <= s.tree[u].len();
                lemma_goal_is_farther(edges, nodes, start, is_goal, done, s, parent, r);
            }
            assert(slot_ok(edges, start, is_goal, t, route, w));
        } else {
            assert(s.closed.contains(w));
            if w != u {
                assert(done.contains(w));
            }
        }
        assert forall|j: int| is_first(nodes, j) && t.queue.contains(#[trigger] nodes[j]) implies slot_ok(
            edges,
            start,
            is_goal,
            t,
            t.table[j],
            nodes[j],
        ) by {
            if j != c {
                assert(slot_ok(edges, start, is_goal, s, s.table[j], nodes[j]));
            }
        }
    } else {
        assert(!s.tree.dom().contains(w));
        assert(!s.queue.contains(w) && !s.closed.contains(w));
        let grown = s.tree[u].push(w);
        lemma_walk_push(edges, s.tree[u], w);
        assert(t.tree[w] == grown);
        // No walk reaches the neighbour sooner.
        assert(shortest(edges, grown)) by {
            assert forall|r: Seq<N>| #[trigger] joins(edges, r, grown[0], grown.last()) implies grown.len()
                <= r.len() by {
                let k = lemma_leaves_done(edges, nodes, start, is_goal, done, s, r);
                if r[k] != u {
                    assert(s.queue.contains(r[k]));
                    let b = choose|b: int| 0 <= b < s.queue.len() && s.queue[b] == r[k];
                    assert(s.tree[u].len() <= s.tree[s.queue[b]].len());
                }
            }
        }
        let last = s.queue.len() as int;
        assert(t.queue[last] == w);
        assert forall|x: N| t.queue.contains(x) <==> s.queue.contains(x) || x == w by {
            if t.queue.contains(x) {
                let b = choose|b: int| 0 <= b < t.queue.len() && t.queue[b] == x;
                if b < last {
                    assert(s.queue[b] == x);
                }
            }
            if s.queue.contains(x) {
                let b = choose|b: int| 0 <= b < s.queue.len() && s.queue[b] == x;
                assert(t.queue[b] == x);
            }
        }
        assert(t.queue.no_duplicates()) by {
            assert forall|a: int, b: int|
                0 <= a < t.queue.len() && 0 <= b < t.queue.len() && a != b implies t.queue[a]
                != t.queue[b] by {
                if a < last && b < last {
                    assert(s.queue[a] != s.queue[b]);
                } else if a < last {
                    assert(s.queue.contains(s.queue[a]));
                } else {
                    assert(s.queue.contains(s.queue[b]));
                }
            }
        }
        assert forall|x: N| #[trigger] t.tree.dom().contains(x) implies joins(
            edges,
            t.tree[x],
            start,
            x,
        ) && shortest(edges, t.tree[x]) && rejects(is_goal, x) && (x == start || nodes.contains(
            x,
        )) by {
            if x != w {
                assert(s.tree.dom().contains(x));
            }
        }
        assert forall|j: int| 0 <= j < nodes.len() implies (#[trigger] t.seen[j] <==> is_first(
            nodes,
            j,
        ) && t.tree.dom().contains(nodes[j])) by {
            if j != c {
                assert(s.seen[j] <==> is_first(nodes, j) && s.tree.dom().contains(nodes[j]));
                if is_first(nodes, j) && nodes[j] == w {
                    lemma_first_is_unique(nodes, j, c);
                }
            }
        }
        assert forall|u2: N, w2: N|
            done.contains(u2) && (#[trigger] edges(u2, w2)) is Some implies t.tree.dom().contains(
            w2,
        ) && t.tree[w2].len() <= t.tree[u2].len() + 1 by {
            assert(s.tree.dom().contains(w2));
            assert(s.closed.contains(u2));
            assert(s.tree.dom().contains(u2));
        }
        assert forall|a: int, b: int| 0 <= a <= b < t.queue.len() implies t.tree[
        #[trigger] t.queue[a]].len() <= t.tree[#[trigger] t.queue[b]].len() <= t.tree[
        t.queue[a]].len() + 1 by {
            if a < last {
                assert(t.queue[a] == s.queue[a]);
                assert(s.queue.contains(s.queue[a]));
                assert(s.tree[u].len() <= s.tree[s.queue[a]].len() <= s.tree[u].len() + 1);
            }
            if b < last {
                assert(t.queue[b] == s.queue[b]);
                assert(s.queue.contains(s.queue[b]));
            }
        }
        assert forall|x: N, b: int| t.closed.contains(x) && 0 <= b < t.queue.len() implies (
        #[trigger] t.tree[x]).len() <= t.tree[#[trigger] t.queue[b]].len() by {
            assert(s.tree.dom().contains(x));
            if b < last {
                assert(t.queue[b] == s.queue[b]);
                assert(s.queue.contains(s.queue[b]));
            } else {
                if x != u {
                    assert(done.contains(x));
                }
            }
        }
        assert forall|j: int| is_first(nodes, j) && t.queue.contains(#[trigger] nodes[j]) implies slot_ok(
            edges,
            start,
            is_goal,
            t,
            t.table[j],
            nodes[j],
        ) by {
            if j != c {
                assert(nodes[j] != w) by {
                    if nodes[j] == w {
                        lemma_first_is_unique(nodes, j, c);
                    }
                }
                assert(s.queue.contains(nodes[j]));
                assert(slot_ok(edges, start, is_goal, s, s.table[j], nodes[j]));
            } else {
                assert(slot_ok(edges, start, is_goal, t, route, w));
            }
        }
        assert forall|b: int| 0 <= b < t.queue.len() implies t.tree[parent.node].len() <= t.tree[
        #[trigger] t.queue[b]].len() <= t.tree[parent.node].len() + 1 by {
            if b < last {
                assert(t.queue[b] == s.queue[b]);
                assert(s.queue.contains(s.queue[b]));
            }
        }
        assert forall|x: N| done.contains(x) implies (#[trigger] t.tree[x]).len() <= t.tree[
        parent.node].len() by {
            assert(s.closed.contains(x));
            assert(s.tree.dom().contains(x));
        }
    }
}

/// Once all edges of the node that is being expanded have been followed,
/// the node is done.
proof fn lemma_sweep_closes<N, C: HasZero, G: Fn(N) -> bool>(
    edges: spec_fn(N, N) -> Option<C>,
    nodes: Seq<N>,
    start: N,
    is_goal: G,
    done: Set<N>,
    s: Sweep<N>,
    parent: Route<N>,
    children: Seq<(N, C)>,
)
    requires
        sweeping(edges, nodes, start, is_goal, done, s),
        expanding(edges, start, is_goal, done, s, parent),
        enumerates(edges, parent.node, children),
        forall|j: int|
            0 <= j < children.len() ==> s.tree.dom().contains((#[trigger] children[j]).0)
                && s.tree[children[j].0].len() <= s.tree[parent.node].len() + 1,
    ensures
        sweeping(edges, nodes, start, is_goal, s.closed, s),
{
    reveal(sweeping);
    reveal(expanding);
    assert forall|u: N, w: N|
        s.closed.contains(u) && (#[trigger] edges(u, w)) is Some implies s.tree.dom().contains(w)
        && s.tree[w].len() <= s.tree[u].len() + 1 by {
        if !done.contains(u) {
            let j = choose|j: int| 0 <= j < children.len() && (#[trigger] children[j]).0 == w;
            assert(s.tree.dom().contains(children[j].0));
        }
    }
}

/// The route over the node that is being expanded to a neighbour that is a
/// goal passes rejected nodes only, and in a graph that is layered up to the
/// goal no walk from the start to a node that the test cannot reject has
/// fewer nodes.
proof fn lemma_sweep_finds<N, C: HasZero, G: Fn(N) -> bool>(
    edges: spec_fn(N, N) -> Option<C>,
    nodes: Seq<N>,
    start: N,
    is_goal: G,
    done: Set<N>,
    s: Sweep<N>,
    parent: Route<N>,
    goal: N,
)
    requires
        sweeping(edges, nodes, start, is_goal, done, s),
        expanding(edges, start, is_goal, done, s, parent),
    ensures
        passed(is_goal, parent.path.push(goal)),
        layered_up_to_goal(edges, start, is_goal) ==> forall|p: Seq<N>|
            #[trigger] is_walk(edges, p) && p[0] == start && !rejects(is_goal, p.last())
                ==> parent.path.len() + 1 <= p.len(),
{
    let path = parent.path.push(goal);
    assert forall|k: int| 0 <= k < path.len() - 1 implies rejects(is_goal, #[trigger] path[k]) by {
        reveal(sweeping);
        reveal(expanding);
        assert(s.closed.contains(parent.path[k]));
        assert(s.tree.dom().contains(parent.path[k]));
    }
    if layered_up_to_goal(edges, start, is_goal) {
        assert forall|p: Seq<N>|
            #[trigger] is_walk(edges, p) && p[0] == start && !rejects(
                is_goal,
                p.last(),
            ) implies parent.path.len() + 1 <= p.len() by {
            lemma_goal_is_farther(edges, nodes, start, is_goal, done, s, parent, p);
            reveal(expanding);
        }
    }
}

} // verus!
