//! Walks, what they cost, and what a search result says of one.
//!
//! A search sees a graph as an edge function: `edges(a, b)` is the cost of
//! the edge from `a` to `b`, or `None`. The same definitions then serve a
//! graph and its reverse.

use super::cost::HasZero;
use super::result::Route;
use vstd::prelude::*;

verus! {

/// The edge that a node sequence takes from position `i` to the next.
pub open spec fn hop<N, C>(edges: spec_fn(N, N) -> Option<C>, p: Seq<N>, i: int) -> Option<C> {
    edges(p[i], p[i + 1])
}

/// What the edge from `a` to `b` adds to a cost.
pub open spec fn step<N, C: HasZero>(edges: spec_fn(N, N) -> Option<C>, a: N, b: N) -> nat {
    match edges(a, b) {
        Some(c) => c.value(),
        None => 0,
    }
}

/// A walk: a non-empty node sequence in which every node has an edge to the
/// next. A single node is a walk, whether the graph knows it or not.
pub open spec fn is_walk<N, C>(edges: spec_fn(N, N) -> Option<C>, p: Seq<N>) -> bool {
    &&& p.len() >= 1
    &&& forall|i: int| 0 <= i < p.len() - 1 ==> (#[trigger] hop(edges, p, i)) is Some
}

/// The sum of the costs of the edges along `p`.
pub open spec fn walk_cost<N, C: HasZero>(edges: spec_fn(N, N) -> Option<C>, p: Seq<N>) -> nat
    decreases p.len(),
{
    if p.len() <= 1 {
        0
    } else {
        walk_cost(edges, p.drop_last()) + step(edges, p[p.len() - 2], p[p.len() - 1])
    }
}

/// A walk from `start` to `end`.
pub open spec fn joins<N, C>(
    edges: spec_fn(N, N) -> Option<C>,
    p: Seq<N>,
    start: N,
    end: N,
) -> bool {
    is_walk(edges, p) && p[0] == start && p.last() == end
}

/// `found` holds a walk from `start` to `found.node` and the cost of it.
pub open spec fn records_walk<N, C: HasZero>(
    edges: spec_fn(N, N) -> Option<C>,
    start: N,
    found: Route<N>,
) -> bool {
    &&& joins(edges, found.path, start, found.node)
    &&& found.cost == walk_cost(edges, found.path)
}

/// Every walk from `start` of at most `hops` edges has a cost that the cost
/// type can hold.
pub open spec fn walks_fit<N, C: HasZero>(
    edges: spec_fn(N, N) -> Option<C>,
    start: N,
    hops: nat,
) -> bool {
    forall|p: Seq<N>|
        #[trigger] is_walk(edges, p) && p[0] == start && p.len() <= hops + 1 ==> walk_cost(
            edges,
            p,
        ) <= C::limit()
}

/// Both ends of every edge are among `nodes`.
pub open spec fn within<N, C>(edges: spec_fn(N, N) -> Option<C>, nodes: Seq<N>) -> bool {
    forall|a: N, b: N| (#[trigger] edges(a, b)) is Some ==> nodes.contains(a) && nodes.contains(b)
}

/// `list` holds the edges that leave `node`: each of them once, and no other.
pub open spec fn enumerates<N, C>(
    edges: spec_fn(N, N) -> Option<C>,
    node: N,
    list: Seq<(N, C)>,
) -> bool {
    &&& forall|j: int|
        0 <= j < list.len() ==> edges(node, (#[trigger] list[j]).0) == Some(list[j].1)
    &&& forall|next: N| (#[trigger] edges(node, next)) is Some ==> exists|j: int|
        0 <= j < list.len() && (#[trigger] list[j]).0 == next
}

/// A walk extended by one edge is a walk, and costs that edge more.
pub proof fn lemma_walk_push<N, C: HasZero>(edges: spec_fn(N, N) -> Option<C>, p: Seq<N>, next: N)
    requires
        is_walk(edges, p),
        edges(p.last(), next) is Some,
    ensures
        is_walk(edges, p.push(next)),
        walk_cost(edges, p.push(next)) == walk_cost(edges, p) + step(edges, p.last(), next),
{
    let q = p.push(next);
    assert forall|i: int| 0 <= i < q.len() - 1 implies (#[trigger] hop(edges, q, i)) is Some by {
        if i < p.len() - 1 {
            assert(hop(edges, p, i) is Some);
            assert(q[i] == p[i] && q[i + 1] == p[i + 1]);
        } else {
            assert(q[i] == p.last() && q[i + 1] == next);
        }
    }
    assert(q.drop_last() =~= p);
    assert(q[q.len() - 2] == p.last());
}

/// Every prefix of a walk is a walk, and costs no more than the whole.
pub proof fn lemma_walk_prefix<N, C: HasZero>(edges: spec_fn(N, N) -> Option<C>, p: Seq<N>, k: int)
    requires
        is_walk(edges, p),
        1 <= k <= p.len(),
    ensures
        is_walk(edges, p.take(k)),
        walk_cost(edges, p.take(k)) <= walk_cost(edges, p),
    decreases p.len() - k,
{
    let q = p.take(k);
    assert forall|i: int| 0 <= i < q.len() - 1 implies (#[trigger] hop(edges, q, i)) is Some by {
        assert(hop(edges, p, i) is Some);
    }
    if k < p.len() {
        lemma_walk_prefix(edges, p, k + 1);
        assert(p.take(k + 1).drop_last() =~= q);
    } else {
        assert(q =~= p);
    }
}

/// Taking one node more of a walk adds the cost of the edge to that node.
pub proof fn lemma_walk_take_next<N, C: HasZero>(
    edges: spec_fn(N, N) -> Option<C>,
    p: Seq<N>,
    k: int,
)
    requires
        is_walk(edges, p),
        1 <= k < p.len(),
    ensures
        edges(p[k - 1], p[k]) is Some,
        walk_cost(edges, p.take(k + 1)) == walk_cost(edges, p.take(k)) + step(
            edges,
            p[k - 1],
            p[k],
        ),
{
    assert(hop(edges, p, k - 1) is Some);
    assert(p.take(k + 1).drop_last() =~= p.take(k));
}

/// Where all edges stay within `nodes`, so does every walk of two nodes or
/// more.
pub proof fn lemma_walk_within<N, C>(
    edges: spec_fn(N, N) -> Option<C>,
    nodes: Seq<N>,
    p: Seq<N>,
    i: int,
)
    requires
        within(edges, nodes),
        is_walk(edges, p),
        p.len() >= 2,
        0 <= i < p.len(),
    ensures
        nodes.contains(p[i]),
{
    if i < p.len() - 1 {
        assert(hop(edges, p, i) is Some);
    } else {
        assert(hop(edges, p, i - 1) is Some);
    }
}

/// A sequence without repetition whose items all come from `nodes` is no
/// longer than `nodes`.
pub proof fn lemma_distinct_bound<N>(nodes: Seq<N>, p: Seq<N>)
    requires
        p.no_duplicates(),
        forall|i: int| 0 <= i < p.len() ==> nodes.contains(#[trigger] p[i]),
    ensures
        p.len() <= nodes.len(),
{
    broadcast use vstd::seq_lib::seq_to_set_is_finite;

    p.unique_seq_to_set();
    nodes.lemma_cardinality_of_set();
    assert(p.to_set().subset_of(nodes.to_set())) by {
        assert forall|x: N| p.to_set().contains(x) implies nodes.to_set().contains(x) by {
            let i = choose|i: int| 0 <= i < p.len() && p[i] == x;
            assert(nodes.contains(p[i]));
        }
    }
    vstd::set_lib::lemma_len_subset(p.to_set(), nodes.to_set());
}

/// Where all edges stay within `nodes`, a walk that visits no node twice has
/// at most as many edges as there are nodes, and fewer once it has an edge.
pub proof fn lemma_simple_walk_bound<N, C>(
    edges: spec_fn(N, N) -> Option<C>,
    nodes: Seq<N>,
    p: Seq<N>,
)
    requires
        within(edges, nodes),
        is_walk(edges, p),
        p.no_duplicates(),
    ensures
        p.len() <= nodes.len() + 1,
        p.len() >= 2 ==> p.len() <= nodes.len(),
{
    if p.len() >= 2 {
        assert forall|i: int| 0 <= i < p.len() implies nodes.contains(#[trigger] p[i]) by {
            lemma_walk_within(edges, nodes, p, i);
        }
        lemma_distinct_bound(nodes, p);
    }
}

/// The cost of a walk is the cost of its first edge and of the rest.
pub proof fn lemma_walk_drop_first<N, C: HasZero>(edges: spec_fn(N, N) -> Option<C>, p: Seq<N>)
    requires
        is_walk(edges, p),
        p.len() >= 2,
    ensures
        is_walk(edges, p.drop_first()),
        walk_cost(edges, p) == step(edges, p[0], p[1]) + walk_cost(edges, p.drop_first()),
    decreases p.len(),
{
    let rest = p.drop_first();
    assert forall|i: int| 0 <= i < rest.len() - 1 implies (#[trigger] hop(edges, rest, i)) is Some by {
        assert(hop(edges, p, i + 1) is Some);
    }
    if p.len() == 2 {
        assert(walk_cost(edges, p.drop_last()) == 0);
        assert(walk_cost(edges, rest) == 0);
    } else {
        let shorter = p.drop_last();
        assert forall|i: int| 0 <= i < shorter.len() - 1 implies (#[trigger] hop(
            edges,
            shorter,
            i,
        )) is Some by {
            assert(hop(edges, p, i) is Some);
        }
        lemma_walk_drop_first(edges, shorter);
        assert(shorter.drop_first() =~= rest.drop_last());
        assert(rest[rest.len() - 2] == p[p.len() - 2]);
    }
}

/// The join of a walk from the start to a meeting node and a walk of the
/// reversed graph from the end to that node: the first, and then the second
/// walked backwards from the node before the meeting node.
pub open spec fn stitch<N>(fwd: Seq<N>, bwd: Seq<N>) -> Seq<N> {
    fwd + bwd.drop_last().reverse()
}

/// Two walks that meet make one: a walk from the start of the first to the
/// start of the second, at the sum of their costs.
pub proof fn lemma_stitch<N, C: HasZero>(
    edges: spec_fn(N, N) -> Option<C>,
    back: spec_fn(N, N) -> Option<C>,
    fwd: Seq<N>,
    bwd: Seq<N>,
)
    requires
        forall|a: N, b: N| #[trigger] back(a, b) == edges(b, a),
        is_walk(edges, fwd),
        is_walk(back, bwd),
        fwd.last() == bwd.last(),
    ensures
        is_walk(edges, stitch(fwd, bwd)),
        stitch(fwd, bwd)[0] == fwd[0],
        stitch(fwd, bwd).last() == bwd[0],
        stitch(fwd, bwd).len() == fwd.len() + bwd.len() - 1,
        walk_cost(edges, stitch(fwd, bwd)) == walk_cost(edges, fwd) + walk_cost(back, bwd),
    decreases bwd.len(),
{
    let joined = stitch(fwd, bwd);
    if bwd.len() == 1 {
        assert(bwd.drop_last().reverse() =~= Seq::<N>::empty());
        assert(joined =~= fwd);
    } else {
        let rest = bwd.drop_first();
        lemma_walk_drop_first(back, bwd);
        lemma_stitch(edges, back, fwd, rest);
        let shorter = stitch(fwd, rest);
        assert(joined =~= shorter.push(bwd[0])) by {
            let tail = bwd.drop_last().reverse();
            let rest_tail = rest.drop_last().reverse();
            assert(tail.len() == rest_tail.len() + 1);
            assert forall|i: int| 0 <= i < rest_tail.len() implies tail[i] == rest_tail[i] by {}
            assert(tail[tail.len() - 1] == bwd[0]);
        }
        assert(shorter.last() == rest[0]);
        assert(hop(back, bwd, 0) is Some);
        assert(edges(bwd[1], bwd[0]) == back(bwd[0], bwd[1]));
        lemma_walk_push(edges, shorter, bwd[0]);
    }
}

/// A path passes a meeting node once: up to some position, and from that
/// position on, it visits no node twice.
pub open spec fn meets_once<N>(path: Seq<N>) -> bool {
    exists|meet: int|
        0 <= meet < path.len() && (#[trigger] path.take(meet + 1)).no_duplicates() && path.skip(
            meet,
        ).no_duplicates()
}

/// The join of two paths that visit no node twice passes the node at which
/// they meet once.
pub proof fn lemma_stitch_meets_once<N>(fwd: Seq<N>, bwd: Seq<N>)
    requires
        fwd.len() >= 1,
        bwd.len() >= 1,
        fwd.last() == bwd.last(),
        fwd.no_duplicates(),
        bwd.no_duplicates(),
    ensures
        meets_once(stitch(fwd, bwd)),
{
    let joined = stitch(fwd, bwd);
    let meet = fwd.len() - 1;
    let tail = joined.skip(meet);
    assert(joined.take(meet + 1) =~= fwd);
    assert(tail.len() == bwd.len());
    assert forall|i: int| 0 <= i < tail.len() implies tail[i] == bwd[bwd.len() - 1 - i] by {
        if i > 0 {
            assert(joined[meet + i] == bwd.drop_last().reverse()[i - 1]);
        }
    }
    assert(tail.no_duplicates()) by {
        assert forall|a: int, b: int| 0 <= a < tail.len() && 0 <= b < tail.len() && a != b implies tail[a]
            != tail[b] by {
            assert(bwd[bwd.len() - 1 - a] != bwd[bwd.len() - 1 - b]);
        }
    }
}

/// Between the ends of any walk there is a walk that visits no node twice
/// and is no longer.
pub proof fn lemma_shortcut<N, C>(edges: spec_fn(N, N) -> Option<C>, p: Seq<N>) -> (q: Seq<N>)
    requires
        is_walk(edges, p),
    ensures
        is_walk(edges, q),
        q[0] == p[0],
        q.last() == p.last(),
        q.no_duplicates(),
        q.len() <= p.len(),
    decreases p.len(),
{
    if p.no_duplicates() {
        p
    } else {
        let (a, b) = choose|a: int, b: int|
            0 <= a < p.len() && 0 <= b < p.len() && a != b && p[a] == p[b];
        let i = if a < b {
            a
        } else {
            b
        };
        let j = if a < b {
            b
        } else {
            a
        };
        let cut = p.take(i + 1) + p.skip(j + 1);
        assert forall|k: int| 0 <= k < cut.len() - 1 implies (#[trigger] hop(edges, cut, k)) is Some by {
            if k < i {
                assert(hop(edges, p, k) is Some);
            } else {
                assert(hop(edges, p, k + (j - i)) is Some);
                assert(cut[k + 1] == p[k + 1 + (j - i)]);
                if k == i {
                    assert(cut[k] == p[j]);
                } else {
                    assert(cut[k] == p[k + (j - i)]);
                }
            }
        }
        lemma_shortcut(edges, cut)
    }
}

/// Where no edge costs more than `bound`, a walk costs no more than `bound`
/// for each of its edges.
pub proof fn lemma_walk_cost_bound<N, C: HasZero>(
    edges: spec_fn(N, N) -> Option<C>,
    p: Seq<N>,
    bound: nat,
)
    requires
        forall|a: N, b: N| (#[trigger] edges(a, b)) matches Some(c) ==> c.value() <= bound,
        p.len() >= 1,
    ensures
        walk_cost(edges, p) <= (p.len() - 1) * bound,
    decreases p.len(),
{
    if p.len() > 1 {
        lemma_walk_cost_bound(edges, p.drop_last(), bound);
        let a = p[p.len() - 2];
        let b = p[p.len() - 1];
        assert(step(edges, a, b) <= bound) by {
            if edges(a, b) is Some {
                assert(edges(a, b).unwrap().value() <= bound);
            }
        }
        assert((p.len() - 2) * bound + bound == (p.len() - 1) * bound) by (nonlinear_arith);
    } else {
        assert((p.len() - 1) * bound == 0) by (nonlinear_arith)
            requires
                p.len() == 1,
        ;
    }
}

/// Where no edge costs more than `bound`, and the cost type can hold `hops`
/// times `bound`, it can hold the cost of every walk of at most `hops`
/// edges.
pub proof fn lemma_bounded_walks_fit<N, C: HasZero>(
    edges: spec_fn(N, N) -> Option<C>,
    start: N,
    hops: nat,
    bound: nat,
)
    requires
        forall|a: N, b: N| (#[trigger] edges(a, b)) matches Some(c) ==> c.value() <= bound,
        hops * bound <= C::limit(),
    ensures
        walks_fit(edges, start, hops),
{
    assert forall|p: Seq<N>|
        #[trigger] is_walk(edges, p) && p[0] == start && p.len() <= hops + 1 implies walk_cost(
        edges,
        p,
    ) <= C::limit() by {
        lemma_walk_cost_bound(edges, p, bound);
        assert((p.len() - 1) * bound <= hops * bound) by (nonlinear_arith)
            requires
                0 <= p.len() - 1 <= hops,
        ;
    }
}

/// A node sequence costs no less than any of its beginnings, walk or not.
pub proof fn lemma_cost_grows<N, C: HasZero>(edges: spec_fn(N, N) -> Option<C>, p: Seq<N>, k: int)
    requires
        0 <= k <= p.len(),
    ensures
        walk_cost(edges, p.take(k)) <= walk_cost(edges, p),
    decreases p.len() - k,
{
    if k < p.len() {
        lemma_cost_grows(edges, p, k + 1);
        if k >= 1 {
            assert(p.take(k + 1).drop_last() =~= p.take(k));
        }
    } else {
        assert(p.take(k) =~= p);
    }
}

/// A walk costs what it costs up to one of its nodes and what the rest of
/// it costs from that node on.
pub proof fn lemma_walk_split<N, C: HasZero>(edges: spec_fn(N, N) -> Option<C>, p: Seq<N>, j: int)
    requires
        is_walk(edges, p),
        0 <= j < p.len(),
    ensures
        is_walk(edges, p.skip(j)),
        p.skip(j)[0] == p[j],
        p.skip(j).last() == p.last(),
        walk_cost(edges, p) == walk_cost(edges, p.take(j + 1)) + walk_cost(edges, p.skip(j)),
    decreases p.len() - j,
{
    let rest = p.skip(j);
    assert forall|i: int| 0 <= i < rest.len() - 1 implies (#[trigger] hop(edges, rest, i)) is Some by {
        assert(hop(edges, p, i + j) is Some);
    }
    if j == p.len() - 1 {
        assert(p.take(j + 1) =~= p);
        assert(rest.len() == 1);
    } else {
        lemma_walk_split(edges, p, j + 1);
        lemma_walk_take_next(edges, p, j + 1);
        lemma_walk_drop_first(edges, rest);
        assert(rest.drop_first() =~= p.skip(j + 1));
    }
}

} // verus!
