//! The mathematical model of an adjacency index, and what holds of it.
//!
//! The index is a sequence of `(source, neighbours)` entries in the order in
//! which sources were first seen; each `neighbours` is a sequence of
//! `(target, cost)` pairs in the order in which targets were first seen. No
//! source occurs twice, and no target occurs twice under one source.

use super::cost::HasZero;
use super::result::Route;
use super::walk::{enumerates, within};
use vstd::prelude::*;

verus! {

/// Whether some entry of `list` is keyed by `key`.
pub open spec fn has_key<N, X>(list: Seq<(N, X)>, key: N) -> bool {
    exists|i: int| 0 <= i < list.len() && (#[trigger] list[i]).0 == key
}

/// The position of an entry of `list` keyed by `key`, where there is one.
pub open spec fn key_index<N, X>(list: Seq<(N, X)>, key: N) -> int {
    choose|i: int| 0 <= i < list.len() && (#[trigger] list[i]).0 == key
}

/// No two entries of `list` share a key.
pub open spec fn distinct_keys<N, X>(list: Seq<(N, X)>) -> bool {
    forall|i: int, j: int|
        0 <= i < j < list.len() ==> (#[trigger] list[i]).0 != (#[trigger] list[j]).0
}

/// With distinct keys, an entry keyed by `key` sits at exactly one position.
pub proof fn lemma_key_index<N, X>(list: Seq<(N, X)>, key: N, i: int)
    requires
        distinct_keys(list),
        0 <= i < list.len(),
        list[i].0 == key,
    ensures
        has_key(list, key),
        key_index(list, key) == i,
{
    let k = key_index(list, key);
    if k < i {
        assert(list[k].0 != list[i].0);
    } else if i < k {
        assert(list[i].0 != list[k].0);
    }
}

/// The mathematical model of an adjacency index.
pub open spec fn adjacency_of<N, C>(entries: Seq<(N, Vec<(N, C)>)>) -> Seq<(N, Seq<(N, C)>)> {
    entries.map_values(|e: (N, Vec<(N, C)>)| (e.0, e.1@))
}

/// An adjacency index in which every key occurs once.
pub open spec fn well_indexed<N, C>(adj: Seq<(N, Seq<(N, C)>)>) -> bool {
    &&& distinct_keys(adj)
    &&& forall|i: int| 0 <= i < adj.len() ==> distinct_keys((#[trigger] adj[i]).1)
}

/// The neighbours recorded for `node`, or `None` where `node` is no source.
pub open spec fn outgoing_of<N, C>(adj: Seq<(N, Seq<(N, C)>)>, node: N) -> Option<Seq<(N, C)>> {
    if has_key(adj, node) {
        Some(adj[key_index(adj, node)].1)
    } else {
        None
    }
}

/// The neighbours of `node` in the order in which they were recorded; none
/// where `node` is no source.
pub open spec fn neighbours_of<N, C>(adj: Seq<(N, Seq<(N, C)>)>, node: N) -> Seq<(N, C)> {
    match outgoing_of(adj, node) {
        Some(list) => list,
        None => Seq::empty(),
    }
}

/// The route that follows `from` over the edge at `index` of `list`.
pub open spec fn along<N, C: HasZero>(list: Seq<(N, C)>, from: Route<N>, index: int) -> Route<N> {
    Route {
        node: list[index].0,
        cost: from.cost + list[index].1.value(),
        path: from.path.push(list[index].0),
    }
}

/// The route that follows `from` over the edge at `index` of the neighbour
/// list of its node.
pub open spec fn onward<N, C: HasZero>(adj: Seq<(N, Seq<(N, C)>)>, from: Route<N>, index: int) -> Route<
    N,
> {
    along(neighbours_of(adj, from.node), from, index)
}

/// The cost of the edge from `a` to `b`, or `None` where there is no such edge.
pub open spec fn edge_of<N, C>(adj: Seq<(N, Seq<(N, C)>)>, a: N, b: N) -> Option<C> {
    match outgoing_of(adj, a) {
        Some(list) => if has_key(list, b) {
            Some(list[key_index(list, b)].1)
        } else {
            None
        },
        None => None,
    }
}

/// The index as an edge function: the cost of the edge from `a` to `b`.
pub open spec fn forward_of<N, C>(adj: Seq<(N, Seq<(N, C)>)>) -> spec_fn(N, N) -> Option<C> {
    |a: N, b: N| edge_of(adj, a, b)
}

/// The reversed index as an edge function: the cost of the edge from `b` to
/// `a`.
pub open spec fn backward_of<N, C>(adj: Seq<(N, Seq<(N, C)>)>) -> spec_fn(N, N) -> Option<C> {
    |a: N, b: N| edge_of(adj, b, a)
}

/// Whether `node` occurs in the index, as a source or as a target.
pub open spec fn mentions<N, C>(adj: Seq<(N, Seq<(N, C)>)>, node: N) -> bool {
    exists|i: int|
        0 <= i < adj.len() && ((#[trigger] adj[i]).0 == node || has_key(adj[i].1, node))
}

/// Every node that the index mentions is one of `nodes`.
pub open spec fn closed_under<N, C>(nodes: Seq<N>, adj: Seq<(N, Seq<(N, C)>)>) -> bool {
    forall|node: N| #[trigger] mentions(adj, node) ==> nodes.contains(node)
}

/// The neighbour list `list` after recording `(key, cost)`: a new key is
/// appended, a known key keeps the lower of the two costs.
pub open spec fn upsert_min<N, C: HasZero>(list: Seq<(N, C)>, key: N, cost: C) -> Seq<(N, C)> {
    if has_key(list, key) {
        let i = key_index(list, key);
        if cost.value() < list[i].1.value() {
            list.update(i, (key, cost))
        } else {
            list
        }
    } else {
        list.push((key, cost))
    }
}

/// The index `adj` after recording the edge from `src` to `dst`.
pub open spec fn with_edge<N, C: HasZero>(
    adj: Seq<(N, Seq<(N, C)>)>,
    src: N,
    dst: N,
    cost: C,
) -> Seq<(N, Seq<(N, C)>)> {
    if has_key(adj, src) {
        let i = key_index(adj, src);
        adj.update(i, (src, upsert_min(adj[i].1, dst, cost)))
    } else {
        adj.push((src, seq![(dst, cost)]))
    }
}

/// The index built from directed transitions, taken in order.
pub open spec fn directed_index<N, C: HasZero>(transitions: Seq<(N, N, C)>) -> Seq<
    (N, Seq<(N, C)>),
>
    decreases transitions.len(),
{
    if transitions.len() == 0 {
        Seq::empty()
    } else {
        let t = transitions.last();
        with_edge(directed_index(transitions.drop_last()), t.0, t.1, t.2)
    }
}

/// The index built from undirected transitions, taken in order: each one
/// records the edge there and then the edge back.
pub open spec fn bidirectional_index<N, C: HasZero>(transitions: Seq<(N, N, C)>) -> Seq<
    (N, Seq<(N, C)>),
>
    decreases transitions.len(),
{
    if transitions.len() == 0 {
        Seq::empty()
    } else {
        let t = transitions.last();
        with_edge(
            with_edge(bidirectional_index(transitions.drop_last()), t.0, t.1, t.2),
            t.1,
            t.0,
            t.2,
        )
    }
}

/// The edges that arrive at `node`, as `(source, cost)` pairs in index order.
pub open spec fn incoming_of<N, C>(adj: Seq<(N, Seq<(N, C)>)>, node: N) -> Seq<(N, C)>
    decreases adj.len(),
{
    if adj.len() == 0 {
        Seq::empty()
    } else {
        let rest = incoming_of(adj.drop_last(), node);
        let entry = adj.last();
        if has_key(entry.1, node) {
            rest.push((entry.0, entry.1[key_index(entry.1, node)].1))
        } else {
            rest
        }
    }
}

/// Recording a pair in a neighbour list keeps its keys distinct.
pub proof fn lemma_upsert_min_distinct<N, C: HasZero>(list: Seq<(N, C)>, key: N, cost: C)
    requires
        distinct_keys(list),
    ensures
        distinct_keys(upsert_min(list, key, cost)),
        has_key(upsert_min(list, key, cost), key),
        forall|other: N|
            has_key(upsert_min(list, key, cost), other) <==> other == key || has_key(list, other),
{
    let after = upsert_min(list, key, cost);
    if has_key(list, key) {
        let i = key_index(list, key);
        assert(after.len() == list.len());
        assert forall|a: int| 0 <= a < after.len() implies (#[trigger] after[a]).0 == list[a].0 by {}
        assert(after[i].0 == key);
        assert forall|other: N| has_key(after, other) <==> other == key || has_key(
            list,
            other,
        ) by {
            if has_key(after, other) {
                let a = key_index(after, other);
                assert(list[a].0 == other);
            }
            if has_key(list, other) {
                let a = key_index(list, other);
                assert(after[a].0 == other);
            }
        }
    } else {
        assert(after[list.len() as int].0 == key);
        assert forall|a: int, b: int| 0 <= a < b < after.len() implies (#[trigger] after[a]).0 != (
        #[trigger] after[b]).0 by {
            if b == list.len() {
                assert(list[a].0 != key);
            }
        }
        assert forall|other: N| has_key(after, other) <==> other == key || has_key(
            list,
            other,
        ) by {
            if has_key(after, other) {
                let a = key_index(after, other);
                if a < list.len() {
                    assert(list[a].0 == other);
                }
            }
            if has_key(list, other) {
                let a = key_index(list, other);
                assert(after[a].0 == other);
            }
        }
    }
}

/// Recording an edge keeps the index well indexed and adds its two ends,
/// and nothing else, to what the index mentions.
pub proof fn lemma_with_edge<N, C: HasZero>(adj: Seq<(N, Seq<(N, C)>)>, src: N, dst: N, cost: C)
    requires
        well_indexed(adj),
    ensures
        well_indexed(with_edge(adj, src, dst, cost)),
        forall|node: N| #[trigger]
            mentions(with_edge(adj, src, dst, cost), node) <==> node == src || node == dst
                || mentions(adj, node),
{
    let after = with_edge(adj, src, dst, cost);
    if has_key(adj, src) {
        let i = key_index(adj, src);
        lemma_upsert_min_distinct(adj[i].1, dst, cost);
        assert forall|a: int| 0 <= a < after.len() implies (#[trigger] after[a]).0 == adj[a].0 by {}
        assert forall|a: int| 0 <= a < after.len() implies distinct_keys((#[trigger] after[a]).1) by {
            if a != i {
                assert(after[a] == adj[a]);
            }
        }
        assert forall|node: N| mentions(after, node) <==> node == src || node == dst || mentions(
            adj,
            node,
        ) by {
            if mentions(after, node) {
                let a = choose|a: int|
                    0 <= a < after.len() && ((#[trigger] after[a]).0 == node || has_key(
                        after[a].1,
                        node,
                    ));
                if a == i {
                    if node != src && node != dst {
                        assert(has_key(adj[i].1, node));
                    }
                } else {
                    assert(after[a] == adj[a]);
                    assert(adj[a].0 == node || has_key(adj[a].1, node));
                }
            }
            if node == src || node == dst {
                assert(after[i].0 == src && has_key(after[i].1, dst));
            }
            if mentions(adj, node) {
                let a = choose|a: int|
                    0 <= a < adj.len() && ((#[trigger] adj[a]).0 == node || has_key(
                        adj[a].1,
                        node,
                    ));
                if a == i {
                    assert(after[i].0 == node || has_key(after[i].1, node));
                } else {
                    assert(after[a] == adj[a]);
                    assert(after[a].0 == node || has_key(after[a].1, node));
                }
            }
        }
    } else {
        let n = adj.len() as int;
        let fresh = seq![(dst, cost)];
        assert(after[n] == (src, fresh));
        assert(fresh[0].0 == dst);
        assert forall|a: int, b: int| 0 <= a < b < after.len() implies (#[trigger] after[a]).0 != (
        #[trigger] after[b]).0 by {
            if b == n {
                assert(adj[a].0 != src);
            }
        }
        assert forall|a: int| 0 <= a < after.len() implies distinct_keys((#[trigger] after[a]).1) by {
            if a < n {
                assert(after[a] == adj[a]);
            }
        }
        assert forall|node: N| mentions(after, node) <==> node == src || node == dst || mentions(
            adj,
            node,
        ) by {
            if mentions(after, node) {
                let a = choose|a: int|
                    0 <= a < after.len() && ((#[trigger] after[a]).0 == node || has_key(
                        after[a].1,
                        node,
                    ));
                if a < n {
                    assert(after[a] == adj[a]);
                    assert(adj[a].0 == node || has_key(adj[a].1, node));
                } else {
                    if has_key(fresh, node) {
                        assert(key_index(fresh, node) == 0);
                    }
                }
            }
            if node == src || node == dst {
                assert(after[n].0 == src && has_key(after[n].1, dst));
            }
            if mentions(adj, node) {
                let a = choose|a: int|
                    0 <= a < adj.len() && ((#[trigger] adj[a]).0 == node || has_key(
                        adj[a].1,
                        node,
                    ));
                assert(after[a] == adj[a]);
                assert(after[a].0 == node || has_key(after[a].1, node));
            }
        }
    }
}

/// Both ends of an edge are mentioned by the index.
pub proof fn lemma_edge_mentions<N, C>(adj: Seq<(N, Seq<(N, C)>)>, a: N, b: N)
    requires
        edge_of(adj, a, b) is Some,
    ensures
        mentions(adj, a),
        mentions(adj, b),
{
    let i = key_index(adj, a);
    assert(adj[i].0 == a);
    assert(has_key(adj[i].1, b));
}

/// In an index that mentions nodes of `nodes` only, every edge stays within
/// `nodes`, in either direction.
pub proof fn lemma_closed_within<N, C>(nodes: Seq<N>, adj: Seq<(N, Seq<(N, C)>)>)
    requires
        closed_under(nodes, adj),
    ensures
        within(forward_of(adj), nodes),
        within(backward_of(adj), nodes),
{
    assert forall|a: N, b: N| (#[trigger] forward_of(adj)(a, b)) is Some implies nodes.contains(a)
        && nodes.contains(b) by {
        lemma_edge_mentions(adj, a, b);
    }
    assert forall|a: N, b: N| (#[trigger] backward_of(adj)(a, b)) is Some implies nodes.contains(
        a,
    ) && nodes.contains(b) by {
        lemma_edge_mentions(adj, b, a);
    }
}

/// The neighbours recorded for a source are the edges that leave it; a node
/// that is no source has no edge that leaves it.
pub proof fn lemma_outgoing_enumerates<N, C>(adj: Seq<(N, Seq<(N, C)>)>, node: N)
    requires
        well_indexed(adj),
    ensures
        enumerates(
            forward_of(adj),
            node,
            match outgoing_of(adj, node) {
                Some(list) => list,
                None => Seq::empty(),
            },
        ),
{
    let edges = forward_of(adj);
    match outgoing_of(adj, node) {
        Some(list) => {
            let i = key_index(adj, node);
            assert(distinct_keys(adj[i].1));
            assert forall|j: int| 0 <= j < list.len() implies edges(node, (#[trigger] list[j]).0)
                == Some(list[j].1) by {
                lemma_key_index(list, list[j].0, j);
            }
        },
        None => {},
    }
}

/// The pairs that `incoming_of` lists are the edges that arrive at `node`.
pub proof fn lemma_incoming_enumerates<N, C>(adj: Seq<(N, Seq<(N, C)>)>, node: N)
    requires
        well_indexed(adj),
    ensures
        enumerates(backward_of(adj), node, incoming_of(adj, node)),
    decreases adj.len(),
{
    let edges = backward_of(adj);
    let list = incoming_of(adj, node);
    if adj.len() == 0 {
        assert forall|next: N| (#[trigger] edges(node, next)) is None by {}
    } else {
        let rest = adj.drop_last();
        let entry = adj.last();
        let n = adj.len() - 1;
        assert(well_indexed(rest)) by {
            assert forall|i: int| 0 <= i < rest.len() implies distinct_keys(
                (#[trigger] rest[i]).1,
            ) by {
                assert(rest[i] == adj[i]);
            }
        }
        lemma_incoming_enumerates(rest, node);
        let before = incoming_of(rest, node);
        // An edge of the whole index is the last entry's or one of the rest.
        assert forall|src: N|
            edge_of(adj, src, node) == (if src == entry.0 {
                if has_key(entry.1, node) {
                    Some(entry.1[key_index(entry.1, node)].1)
                } else {
                    None
                }
            } else {
                edge_of(rest, src, node)
            }) by {
            if src == entry.0 {
                lemma_key_index(adj, src, n);
            } else if has_key(adj, src) {
                let i = key_index(adj, src);
                assert(rest[i] == adj[i]);
                lemma_key_index(rest, src, i);
            } else if has_key(rest, src) {
                let i = key_index(rest, src);
                assert(rest[i] == adj[i]);
            }
        }
        assert(!has_key(rest, entry.0)) by {
            if has_key(rest, entry.0) {
                let i = key_index(rest, entry.0);
                assert(rest[i] == adj[i]);
                assert(adj[i].0 != adj[n].0);
            }
        }
        assert forall|j: int| 0 <= j < list.len() implies edges(node, (#[trigger] list[j]).0)
            == Some(list[j].1) by {
            if j < before.len() {
                assert(list[j] == before[j]);
                let src = before[j].0;
                assert(backward_of(rest)(node, src) == Some(before[j].1));
                assert(has_key(rest, src));
            }
        }
        assert forall|next: N| (#[trigger] edges(node, next)) is Some implies exists|j: int|
            0 <= j < list.len() && (#[trigger] list[j]).0 == next by {
            if next == entry.0 {
                assert(list[list.len() - 1].0 == next);
            } else {
                assert(backward_of(rest)(node, next) is Some);
                let j = choose|j: int| 0 <= j < before.len() && (#[trigger] before[j]).0 == next;
                assert(list[j].0 == next);
            }
        }
    }
}

/// The cost found under `key` in a neighbour list, if any.
pub open spec fn lookup<N, C>(list: Seq<(N, C)>, key: N) -> Option<C> {
    if has_key(list, key) {
        Some(list[key_index(list, key)].1)
    } else {
        None
    }
}

/// The lower of a recorded cost and a new one; the recorded one on a tie.
pub open spec fn cheaper<C: HasZero>(recorded: Option<C>, cost: C) -> C {
    match recorded {
        Some(old) => if cost.value() < old.value() {
            cost
        } else {
            old
        },
        None => cost,
    }
}

/// Recording a pair in a neighbour list sets the cost under its key to the
/// lower of the old and the new, and leaves the other keys alone.
pub proof fn lemma_upsert_min_lookup<N, C: HasZero>(list: Seq<(N, C)>, key: N, cost: C, other: N)
    requires
        distinct_keys(list),
    ensures
        lookup(upsert_min(list, key, cost), other) == (if other == key {
            Some(cheaper(lookup(list, key), cost))
        } else {
            lookup(list, other)
        }),
{
    let after = upsert_min(list, key, cost);
    lemma_upsert_min_distinct(list, key, cost);
    if has_key(list, key) {
        let i = key_index(list, key);
        if other == key {
            assert(after[i].0 == key);
            lemma_key_index(after, key, i);
        } else if has_key(list, other) {
            let j = key_index(list, other);
            assert(after[j] == list[j]);
            lemma_key_index(after, other, j);
        }
    } else {
        let n = list.len() as int;
        if other == key {
            assert(after[n].0 == key);
            lemma_key_index(after, key, n);
        } else if has_key(list, other) {
            let j = key_index(list, other);
            assert(after[j] == list[j]);
            lemma_key_index(after, other, j);
        }
    }
}

/// Recording an edge sets the cost of that edge to the lower of the old and
/// the new, and leaves the other edges alone.
pub proof fn lemma_with_edge_lookup<N, C: HasZero>(
    adj: Seq<(N, Seq<(N, C)>)>,
    src: N,
    dst: N,
    cost: C,
    a: N,
    b: N,
)
    requires
        well_indexed(adj),
    ensures
        edge_of(with_edge(adj, src, dst, cost), a, b) == (if a == src && b == dst {
            Some(cheaper(edge_of(adj, a, b), cost))
        } else {
            edge_of(adj, a, b)
        }),
{
    let after = with_edge(adj, src, dst, cost);
    lemma_with_edge(adj, src, dst, cost);
    if has_key(adj, src) {
        let i = key_index(adj, src);
        assert(after[i].0 == src);
        assert forall|k: int| 0 <= k < after.len() implies (#[trigger] after[k]).0 == adj[k].0 by {}
        if a == src {
            lemma_key_index(after, src, i);
            assert(distinct_keys(adj[i].1));
            lemma_upsert_min_lookup(adj[i].1, dst, cost, b);
        } else if has_key(adj, a) {
            let j = key_index(adj, a);
            assert(after[j] == adj[j]);
            lemma_key_index(after, a, j);
        } else if has_key(after, a) {
            let j = key_index(after, a);
            assert(adj[j].0 == a);
        }
    } else {
        let n = adj.len() as int;
        let fresh = seq![(dst, cost)];
        assert(after[n] == (src, fresh));
        if a == src {
            lemma_key_index(after, src, n);
            assert(fresh[0].0 == dst);
            if b == dst {
                assert(distinct_keys(fresh));
                lemma_key_index(fresh, dst, 0);
            } else if has_key(fresh, b) {
                assert(key_index(fresh, b) == 0);
            }
        } else if has_key(adj, a) {
            let j = key_index(adj, a);
            assert(after[j] == adj[j]);
            lemma_key_index(after, a, j);
        } else if has_key(after, a) {
            let j = key_index(after, a);
            if j < n {
                assert(adj[j].0 == a);
            }
        }
    }
}

/// Whether the undirected transition `t` joins `a` and `b`, in this order or
/// the other.
pub open spec fn links<N, C>(t: (N, N, C), a: N, b: N) -> bool {
    (t.0 == a && t.1 == b) || (t.0 == b && t.1 == a)
}

/// The index of an undirected graph is well indexed.
pub proof fn lemma_bidirectional_index_wf<N, C: HasZero>(transitions: Seq<(N, N, C)>)
    ensures
        well_indexed(bidirectional_index(transitions)),
    decreases transitions.len(),
{
    if transitions.len() > 0 {
        let t = transitions.last();
        let before = bidirectional_index(transitions.drop_last());
        lemma_bidirectional_index_wf(transitions.drop_last());
        lemma_with_edge(before, t.0, t.1, t.2);
        lemma_with_edge(with_edge(before, t.0, t.1, t.2), t.1, t.0, t.2);
    }
}

/// In the index of an undirected graph, two nodes have an edge between them
/// exactly if some transition joins them, and the cost of that edge is the
/// lowest cost of all transitions that join them.
pub proof fn lemma_lower_cost_wins<N, C: HasZero>(transitions: Seq<(N, N, C)>, a: N, b: N)
    ensures
        edge_of(bidirectional_index(transitions), a, b) is Some <==> exists|i: int|
            0 <= i < transitions.len() && links(#[trigger] transitions[i], a, b),
        edge_of(bidirectional_index(transitions), a, b) matches Some(cost) ==> {
            &&& exists|i: int|
                0 <= i < transitions.len() && links(#[trigger] transitions[i], a, b)
                    && transitions[i].2 == cost
            &&& forall|i: int|
                0 <= i < transitions.len() && links(#[trigger] transitions[i], a, b)
                    ==> cost.value() <= transitions[i].2.value()
        },
    decreases transitions.len(),
{
    if transitions.len() > 0 {
        let t = transitions.last();
        let shorter = transitions.drop_last();
        let before = bidirectional_index(shorter);
        let middle = with_edge(before, t.0, t.1, t.2);
        lemma_lower_cost_wins(shorter, a, b);
        lemma_bidirectional_index_wf(shorter);
        lemma_with_edge(before, t.0, t.1, t.2);
        lemma_with_edge_lookup(before, t.0, t.1, t.2, a, b);
        lemma_with_edge_lookup(middle, t.1, t.0, t.2, a, b);
        let n = transitions.len() - 1;
        assert(transitions[n] == t);
        assert forall|i: int| 0 <= i < shorter.len() implies shorter[i] == transitions[i] by {}
        let now = edge_of(bidirectional_index(transitions), a, b);
        let was = edge_of(before, a, b);
        if was is Some {
            let i = choose|i: int|
                0 <= i < shorter.len() && links(#[trigger] shorter[i], a, b) && shorter[i].2
                    == was.unwrap();
            assert(links(transitions[i], a, b));
            assert(transitions[i].2 == was.unwrap());
        }
        if now is Some {
            let cost = now.unwrap();
            if cost == t.2 && links(t, a, b) {
                assert(links(transitions[n], a, b) && transitions[n].2 == cost);
            }
            assert forall|i: int|
                0 <= i < transitions.len() && links(#[trigger] transitions[i], a, b) implies cost.value()
                <= transitions[i].2.value() by {
                if i < n {
                    assert(links(shorter[i], a, b));
                }
            }
        }
        if exists|i: int| 0 <= i < transitions.len() && links(#[trigger] transitions[i], a, b) {
            let i = choose|i: int|
                0 <= i < transitions.len() && links(#[trigger] transitions[i], a, b);
            if i < n {
                assert(links(shorter[i], a, b));
            }
        }
    }
}

/// A graph cannot be built on transitions of which one names a node that is
/// not in the node list: the index of the transitions mentions that node.
pub proof fn lemma_unknown_endpoint_rejected<N, C: HasZero>(
    nodes: Seq<N>,
    transitions: Seq<(N, N, C)>,
    i: int,
)
    requires
        0 <= i < transitions.len(),
        !nodes.contains(transitions[i].0) || !nodes.contains(transitions[i].1),
    ensures
        !closed_under(nodes, bidirectional_index(transitions)),
        !closed_under(nodes, directed_index(transitions)),
{
    let t = transitions[i];
    lemma_lower_cost_wins(transitions, t.0, t.1);
    assert(links(transitions[i], t.0, t.1));
    lemma_edge_mentions(bidirectional_index(transitions), t.0, t.1);
    lemma_directed_index_mentions(transitions, i);
}

/// The index of a directed graph is well indexed and mentions both ends of
/// every transition.
pub proof fn lemma_directed_index_mentions<N, C: HasZero>(transitions: Seq<(N, N, C)>, i: int)
    requires
        0 <= i < transitions.len(),
    ensures
        well_indexed(directed_index(transitions)),
        mentions(directed_index(transitions), transitions[i].0),
        mentions(directed_index(transitions), transitions[i].1),
    decreases transitions.len(),
{
    let t = transitions.last();
    let shorter = transitions.drop_last();
    let before = directed_index(shorter);
    if shorter.len() > 0 {
        lemma_directed_index_mentions(shorter, 0);
    }
    lemma_with_edge(before, t.0, t.1, t.2);
    let after = with_edge(before, t.0, t.1, t.2);
    assert(directed_index(transitions) == after);
    if i < shorter.len() {
        lemma_directed_index_mentions(shorter, i);
        assert(shorter[i] == transitions[i]);
        assert(mentions(before, transitions[i].0) && mentions(before, transitions[i].1));
    } else {
        assert(transitions[i] == t);
    }
    assert(mentions(after, transitions[i].0));
    assert(mentions(after, transitions[i].1));
}

/// The highest cost in a neighbour list; zero for an empty list.
pub open spec fn highest_in<N, C: HasZero>(list: Seq<(N, C)>) -> nat
    decreases list.len(),
{
    if list.len() == 0 {
        0
    } else {
        let before = highest_in(list.drop_last());
        if before < list.last().1.value() {
            list.last().1.value()
        } else {
            before
        }
    }
}

/// The highest cost of an edge of the index; zero for an index without
/// edges.
pub open spec fn highest_cost<N, C: HasZero>(adj: Seq<(N, Seq<(N, C)>)>) -> nat
    decreases adj.len(),
{
    if adj.len() == 0 {
        0
    } else {
        let before = highest_cost(adj.drop_last());
        let here = highest_in(adj.last().1);
        if before < here {
            here
        } else {
            before
        }
    }
}

/// No cost in a neighbour list is higher than the highest.
pub proof fn lemma_highest_in<N, C: HasZero>(list: Seq<(N, C)>, j: int)
    requires
        0 <= j < list.len(),
    ensures
        list[j].1.value() <= highest_in(list),
    decreases list.len(),
{
    if j < list.len() - 1 {
        lemma_highest_in(list.drop_last(), j);
    }
}

/// No edge of the index costs more than the highest cost, in either
/// direction.
pub proof fn lemma_highest_cost<N, C: HasZero>(adj: Seq<(N, Seq<(N, C)>)>)
    ensures
        forall|a: N, b: N|
            (#[trigger] forward_of(adj)(a, b)) matches Some(c) ==> c.value() <= highest_cost(adj),
        forall|a: N, b: N|
            (#[trigger] backward_of(adj)(a, b)) matches Some(c) ==> c.value() <= highest_cost(adj),
{
    assert forall|a: N, b: N| (#[trigger] edge_of(adj, a, b)) is Some implies edge_of(
        adj,
        a,
        b,
    ).unwrap().value() <= highest_cost(adj) by {
        let i = key_index(adj, a);
        let j = key_index(adj[i].1, b);
        lemma_highest_in(adj[i].1, j);
        lemma_highest_at(adj, i);
    }
    assert forall|a: N, b: N| (#[trigger] forward_of(adj)(a, b)) is Some implies forward_of(adj)(
        a,
        b,
    ).unwrap().value() <= highest_cost(adj) by {
        assert(forward_of(adj)(a, b) == edge_of(adj, a, b));
    }
    assert forall|a: N, b: N| (#[trigger] backward_of(adj)(a, b)) is Some implies backward_of(
        adj,
    )(a, b).unwrap().value() <= highest_cost(adj) by {
        assert(backward_of(adj)(a, b) == edge_of(adj, b, a));
    }
}

/// The highest cost of an index is no lower than that of any of its
/// neighbour lists.
pub proof fn lemma_highest_at<N, C: HasZero>(adj: Seq<(N, Seq<(N, C)>)>, i: int)
    requires
        0 <= i < adj.len(),
    ensures
        highest_in(adj[i].1) <= highest_cost(adj),
    decreases adj.len(),
{
    if i < adj.len() - 1 {
        lemma_highest_at(adj.drop_last(), i);
    }
}

} // verus!
