//! The weighted graph: a node list and a directed adjacency index.
//!
//! A node is a small value, a label or a number, that is copied wherever it
//! is needed and compared with `==`. The searches require that `==` on nodes
//! tells exactly whether two nodes are the same value. A graph is built once
//! and never changed: the index mentions no node that the node list lacks.

use super::adjacency::{
    adjacency_of, backward_of, bidirectional_index, closed_under, directed_index, distinct_keys,
    forward_of, has_key, highest_cost, highest_in, incoming_of, key_index, lemma_highest_cost,
    lemma_incoming_enumerates, lemma_key_index, lemma_outgoing_enumerates, lemma_with_edge,
    mentions, neighbours_of, outgoing_of, upsert_min, well_indexed, with_edge,
};
use super::cost::HasZero;
use super::result::Route;
use super::walk::{
    enumerates, is_walk, joins, lemma_bounded_walks_fit, lemma_cost_grows, lemma_walk_push,
    records_walk, walk_cost, walks_fit,
};
use vstd::laws_eq::obeys_concrete_eq;
use vstd::prelude::*;
use vstd::std_specs::cmp::PartialEqSpec;

verus! {

/// The directed adjacency index of a graph: for each source, its neighbours
/// and what it costs to move to each.
#[derive(Debug)]
pub struct StateGraphEdges<N, C> {
    node_edges: Vec<(N, Vec<(N, C)>)>,
}

impl<N, C> View for StateGraphEdges<N, C> {
    type V = Seq<(N, Seq<(N, C)>)>;

    closed spec fn view(&self) -> Self::V {
        adjacency_of(self.node_edges@)
    }
}

impl<N, C> StateGraphEdges<N, C> {
    /// Every source occurs once, and every target once under its source.
    #[verifier::type_invariant]
    pub open spec fn wf(&self) -> bool {
        well_indexed(self@)
    }
}

impl<N: Copy + PartialEq, C: HasZero> StateGraphEdges<N, C> {
    /// The neighbours recorded for `node`, or `None` where `node` is no source.
    pub open spec fn outgoing(&self, node: N) -> Option<Seq<(N, C)>> {
        outgoing_of(self@, node)
    }

    /// Builds the index of an undirected graph: each transition is recorded
    /// in both directions, and of two costs for one pair the lower stays.
    pub fn from_bidirectional(transitions: &[(N, N, C)]) -> (edges: StateGraphEdges<N, C>)
        requires
            obeys_concrete_eq::<N>(),
        ensures
            edges@ == bidirectional_index(transitions@),
            edges.wf(),
    {
        let mut node_edges: Vec<(N, Vec<(N, C)>)> = Vec::new();
        let mut i: usize = 0;
        assert(transitions@.take(0) =~= Seq::empty());
        assert(adjacency_of(node_edges@) =~= Seq::empty());
        while i < transitions.len()
            invariant
                i <= transitions.len(),
                obeys_concrete_eq::<N>(),
                well_indexed(adjacency_of(node_edges@)),
                adjacency_of(node_edges@) == bidirectional_index(transitions@.take(i as int)),
            decreases transitions.len() - i,
        {
            let (src, dst, cost) = transitions[i];
            proof {
                let ghost before = adjacency_of(node_edges@);
                lemma_with_edge(before, src, dst, cost);
                assert(transitions@.take(i + 1).drop_last() =~= transitions@.take(i as int));
                assert(transitions@.take(i + 1).last() == transitions@[i as int]);
            }
            Self::insert_edge(&mut node_edges, src, dst, cost);
            Self::insert_edge(&mut node_edges, dst, src, cost);
            i += 1;
        }
        assert(transitions@.take(i as int) =~= transitions@);
        StateGraphEdges { node_edges }
    }

    /// Builds the index of a directed graph: each transition is recorded as
    /// given, and of two costs for one pair the lower stays.
    pub fn from_directed(transitions: &[(N, N, C)]) -> (edges: StateGraphEdges<N, C>)
        requires
            obeys_concrete_eq::<N>(),
        ensures
            edges@ == directed_index(transitions@),
            edges.wf(),
    {
        let mut node_edges: Vec<(N, Vec<(N, C)>)> = Vec::new();
        let mut i: usize = 0;
        assert(transitions@.take(0) =~= Seq::empty());
        assert(adjacency_of(node_edges@) =~= Seq::empty());
        while i < transitions.len()
            invariant
                i <= transitions.len(),
                obeys_concrete_eq::<N>(),
                well_indexed(adjacency_of(node_edges@)),
                adjacency_of(node_edges@) == directed_index(transitions@.take(i as int)),
            decreases transitions.len() - i,
        {
            let (src, dst, cost) = transitions[i];
            proof {
                assert(transitions@.take(i + 1).drop_last() =~= transitions@.take(i as int));
                assert(transitions@.take(i + 1).last() == transitions@[i as int]);
            }
            Self::insert_edge(&mut node_edges, src, dst, cost);
            i += 1;
        }
        assert(transitions@.take(i as int) =~= transitions@);
        StateGraphEdges { node_edges }
    }

    /// The neighbours of `node` with the cost of each edge, in the order in
    /// which they were recorded; `None` where `node` is no source at all.
    pub fn get_outgoing(&self, node: N) -> (found: Option<&Vec<(N, C)>>)
        requires
            obeys_concrete_eq::<N>(),
        ensures
            match found {
                Some(list) => self.outgoing(node) == Some(list@),
                None => self.outgoing(node) is None,
            },
    {
        proof {
            use_type_invariant(self);
        }
        match find_key(&self.node_edges, node) {
            Some(i) => {
                proof {
                    lemma_key_index(self@, node, i as int);
                }
                Some(&self.node_edges[i].1)
            },
            None => {
                assert forall|j: int| 0 <= j < self@.len() implies (#[trigger] self@[j]).0
                    != node by {
                    assert(self.node_edges@[j].0 != node);
                }
                None
            },
        }
    }

    /// The sources that have an edge to `node`, each with the cost of that
    /// edge, in index order.
    pub fn get_incoming(&self, node: N) -> (arriving: Vec<(N, C)>)
        requires
            obeys_concrete_eq::<N>(),
        ensures
            arriving@ == incoming_of(self@, node),
    {
        proof {
            use_type_invariant(self);
        }
        let mut arriving: Vec<(N, C)> = Vec::new();
        let mut i: usize = 0;
        assert(self@.take(0) =~= Seq::empty());
        while i < self.node_edges.len()
            invariant
                i <= self.node_edges.len(),
                self@.len() == self.node_edges.len(),
                obeys_concrete_eq::<N>(),
                well_indexed(self@),
                arriving@ == incoming_of(self@.take(i as int), node),
            decreases self.node_edges.len() - i,
        {
            proof {
                assert(self@.take(i + 1).drop_last() =~= self@.take(i as int));
                assert(self@.take(i + 1).last() == self@[i as int]);
                assert(self@[i as int].1 == self.node_edges@[i as int].1@);
            }
            let src = self.node_edges[i].0;
            match find_key(&self.node_edges[i].1, node) {
                Some(j) => {
                    proof {
                        lemma_key_index(self@[i as int].1, node, j as int);
                    }
                    arriving.push((src, self.node_edges[i].1[j].1));
                },
                None => {},
            }
            i += 1;
        }
        assert(self@.take(i as int) =~= self@);
        arriving
    }

    /// The highest cost of an edge of the index; zero if it has no edge.
    pub fn highest_cost(&self) -> (highest: C)
        ensures
            highest.value() == highest_cost(self@),
    {
        let mut highest = C::zero();
        let mut i: usize = 0;
        assert(self@.take(0) =~= Seq::empty());
        while i < self.node_edges.len()
            invariant
                i <= self.node_edges.len(),
                self@.len() == self.node_edges.len(),
                highest.value() == highest_cost(self@.take(i as int)),
            decreases self.node_edges.len() - i,
        {
            let ghost list = self@[i as int].1;
            let mut here = C::zero();
            let mut j: usize = 0;
            assert(list.take(0) =~= Seq::empty());
            while j < self.node_edges[i].1.len()
                invariant
                    i < self.node_edges.len(),
                    j <= self.node_edges[i as int].1.len(),
                    list == self.node_edges[i as int].1@,
                    here.value() == highest_in(list.take(j as int)),
                decreases self.node_edges[i as int].1.len() - j,
            {
                let cost = self.node_edges[i].1[j].1;
                proof {
                    assert(list.take(j + 1).drop_last() =~= list.take(j as int));
                    assert(list.take(j + 1).last() == list[j as int]);
                }
                if here.less(cost) {
                    here = cost;
                }
                j += 1;
            }
            proof {
                assert(list.take(j as int) =~= list);
                assert(self@.take(i + 1).drop_last() =~= self@.take(i as int));
                assert(self@.take(i + 1).last() == self@[i as int]);
            }
            if highest.less(here) {
                highest = here;
            }
            i += 1;
        }
        assert(self@.take(i as int) =~= self@);
        highest
    }

    /// Records the edge from `src` to `dst`. A pair that is already there
    /// keeps the lower of its cost and `cost`.
    fn insert_edge(node_edges: &mut Vec<(N, Vec<(N, C)>)>, src: N, dst: N, cost: C)
        requires
            obeys_concrete_eq::<N>(),
            well_indexed(adjacency_of(old(node_edges)@)),
        ensures
            adjacency_of(final(node_edges)@) == with_edge(
                adjacency_of(old(node_edges)@),
                src,
                dst,
                cost,
            ),
            well_indexed(adjacency_of(final(node_edges)@)),
    {
        let ghost before = adjacency_of(node_edges@);
        proof {
            lemma_with_edge(before, src, dst, cost);
        }
        match find_key(node_edges, src) {
            Some(i) => {
                proof {
                    lemma_key_index(before, src, i as int);
                }
                let ghost list = node_edges@[i as int].1@;
                match find_key(&node_edges[i].1, dst) {
                    Some(j) => {
                        proof {
                            lemma_key_index(list, dst, j as int);
                        }
                        if cost.less(node_edges[i].1[j].1) {
                            node_edges[i].1[j] = (dst, cost);
                        }
                    },
                    None => {
                        node_edges[i].1.push((dst, cost));
                    },
                }
                assert(node_edges@[i as int].1@ == upsert_min(list, dst, cost));
                assert(adjacency_of(node_edges@) =~= with_edge(before, src, dst, cost));
            },
            None => {
                assert forall|j: int| 0 <= j < before.len() implies (#[trigger] before[j]).0
                    != src by {
                    assert(node_edges@[j].0 != src);
                }
                let mut destinations: Vec<(N, C)> = Vec::new();
                destinations.push((dst, cost));
                assert(destinations@ =~= seq![(dst, cost)]);
                node_edges.push((src, destinations));
                assert(adjacency_of(node_edges@) =~= with_edge(before, src, dst, cost));
            },
        }
    }
}

/// Why a graph could not be built: its index mentions a node that is not
/// among the graph's nodes.
#[derive(Debug, Clone, Copy, PartialEq, Eq)]
pub struct GraphIntegrityError {
}

/// An immutable weighted graph: its nodes and its adjacency index. Every node
/// that the index mentions is one of the graph's nodes.
#[derive(Debug)]
pub struct StateGraph<N, C> {
    nodes: Vec<N>,
    edges: StateGraphEdges<N, C>,
}

impl<N, C> StateGraph<N, C> {
    /// The graph's nodes, in the order given at construction.
    pub closed spec fn node_seq(&self) -> Seq<N> {
        self.nodes@
    }

    /// The graph's adjacency index.
    pub closed spec fn adjacency(&self) -> Seq<(N, Seq<(N, C)>)> {
        self.edges@
    }

    /// The index is well indexed and mentions nodes of the graph only.
    #[verifier::type_invariant]
    pub open spec fn wf(&self) -> bool {
        &&& well_indexed(self.adjacency())
        &&& closed_under(self.node_seq(), self.adjacency())
    }
}

impl<N, C: HasZero> StateGraph<N, C> {
    /// The graph as an edge function: the cost of the edge from `a` to `b`.
    pub open spec fn forward(&self) -> spec_fn(N, N) -> Option<C> {
        forward_of(self.adjacency())
    }

    /// The reversed graph as an edge function: the cost of the edge from `b`
    /// to `a`.
    pub open spec fn backward(&self) -> spec_fn(N, N) -> Option<C> {
        backward_of(self.adjacency())
    }

    /// Whether `p` is a walk of the graph.
    pub open spec fn is_walk(&self, p: Seq<N>) -> bool {
        is_walk(self.forward(), p)
    }

    /// The sum of the costs of the edges along `p`.
    pub open spec fn walk_cost(&self, p: Seq<N>) -> nat {
        walk_cost(self.forward(), p)
    }

    /// Whether `p` is a walk of the graph from `start` to `end`.
    pub open spec fn joins(&self, p: Seq<N>, start: N, end: N) -> bool {
        joins(self.forward(), p, start, end)
    }

    /// Whether `found` holds a walk of the graph from `start` to
    /// `found.node`, and the cost of that walk.
    pub open spec fn records(&self, start: N, found: Route<N>) -> bool {
        records_walk(self.forward(), start, found)
    }

    /// Whether the cost type can hold the cost of every walk from `start`
    /// that has at most `hops` edges.
    pub open spec fn fits(&self, start: N, hops: nat) -> bool {
        walks_fit(self.forward(), start, hops)
    }
}

impl<N: Copy + PartialEq, C: HasZero> StateGraph<N, C> {
    /// Puts a node list and an adjacency index together. Fails where the
    /// index mentions, as a source or as a target, a node that is not in
    /// `nodes`.
    pub fn new(nodes: Vec<N>, edges: StateGraphEdges<N, C>) -> (built: Result<
        StateGraph<N, C>,
        GraphIntegrityError,
    >)
        requires
            obeys_concrete_eq::<N>(),
        ensures
            built is Ok <==> closed_under(nodes@, edges@),
            built matches Ok(graph) ==> graph.node_seq() == nodes@ && graph.adjacency() == edges@
                && graph.wf(),
    {
        proof {
            use_type_invariant(&edges);
        }
        let ghost adj = edges@;
        let mut i: usize = 0;
        while i < edges.node_edges.len()
            invariant
                i <= edges.node_edges.len(),
                adj == edges@,
                adj.len() == edges.node_edges.len(),
                obeys_concrete_eq::<N>(),
                forall|a: int|
                    0 <= a < i ==> nodes@.contains((#[trigger] adj[a]).0) && forall|b: int|
                        0 <= b < adj[a].1.len() ==> nodes@.contains((#[trigger] adj[a].1[b]).0),
            decreases edges.node_edges.len() - i,
        {
            let src = edges.node_edges[i].0;
            assert(adj[i as int].0 == src);
            if !contains_node(nodes.as_slice(), src) {
                assert(mentions(adj, src));
                return Err(GraphIntegrityError {  });
            }
            let mut j: usize = 0;
            while j < edges.node_edges[i].1.len()
                invariant
                    i < edges.node_edges.len(),
                    j <= edges.node_edges[i as int].1.len(),
                    adj == edges@,
                    adj.len() == edges.node_edges.len(),
                    obeys_concrete_eq::<N>(),
                    forall|b: int| 0 <= b < j ==> nodes@.contains((#[trigger] adj[i as int].1[b]).0),
                decreases edges.node_edges[i as int].1.len() - j,
            {
                let dst = edges.node_edges[i].1[j].0;
                assert(adj[i as int].1[j as int].0 == dst);
                if !contains_node(nodes.as_slice(), dst) {
                    assert(has_key(adj[i as int].1, dst));
                    assert(mentions(adj, dst));
                    return Err(GraphIntegrityError {  });
                }
                j += 1;
            }
            i += 1;
        }
        assert forall|node: N| #[trigger] mentions(adj, node) implies nodes@.contains(node) by {
            let a = choose|a: int|
                0 <= a < adj.len() && ((#[trigger] adj[a]).0 == node || has_key(adj[a].1, node));
            if adj[a].0 != node {
                let b = key_index(adj[a].1, node);
                assert(nodes@.contains(adj[a].1[b].0));
            }
        }
        Ok(StateGraph { nodes, edges })
    }

    /// The graph's nodes, in the order given at construction.
    pub fn nodes(&self) -> (nodes: &[N])
        ensures
            nodes@ == self.node_seq(),
    {
        self.nodes.as_slice()
    }

    /// The edges that leave `node`, as `(target, cost)` pairs in the order in
    /// which they were recorded: the list that the index holds for `node`,
    /// or `none` where it holds no list.
    pub fn successors<'a>(&'a self, node: N, none: &'a Vec<(N, C)>) -> (list: &'a Vec<(N, C)>)
        requires
            obeys_concrete_eq::<N>(),
            none@.len() == 0,
        ensures
            list@ == neighbours_of(self.adjacency(), node),
            enumerates(self.forward(), node, list@),
            distinct_keys(list@),
    {
        proof {
            use_type_invariant(self);
            lemma_outgoing_enumerates(self.adjacency(), node);
            if has_key(self.adjacency(), node) {
                let i = key_index(self.adjacency(), node);
                assert(distinct_keys(self.adjacency()[i].1));
            }
        }
        match self.edges.get_outgoing(node) {
            Some(list) => list,
            None => {
                assert(none@ =~= Seq::empty());
                none
            },
        }
    }

    /// The edges that arrive at `node`, as `(source, cost)` pairs in index
    /// order.
    pub fn predecessors(&self, node: N) -> (list: Vec<(N, C)>)
        requires
            obeys_concrete_eq::<N>(),
        ensures
            enumerates(self.backward(), node, list@),
            list@ == incoming_of(self.adjacency(), node),
    {
        proof {
            use_type_invariant(self);
            lemma_incoming_enumerates(self.adjacency(), node);
        }
        self.edges.get_incoming(node)
    }

    /// The cost of the edge from `a` to `b`, or `None` where there is none.
    pub fn edge_cost(&self, a: N, b: N) -> (cost: Option<C>)
        requires
            obeys_concrete_eq::<N>(),
        ensures
            cost == self.forward()(a, b),
    {
        proof {
            use_type_invariant(self);
            use_type_invariant(&self.edges);
        }
        match self.edges.get_outgoing(a) {
            Some(list) => match find_key(list, b) {
                Some(j) => {
                    proof {
                        lemma_key_index(list@, b, j as int);
                        let i = key_index(self.adjacency(), a);
                        assert(distinct_keys(self.adjacency()[i].1));
                    }
                    Some(list[j].1)
                },
                None => None,
            },
            None => None,
        }
    }

    /// Adds up the costs of the edges along `path`: `None` where `path` is
    /// empty or takes a step for which the graph has no edge.
    pub fn path_cost(&self, path: &[N]) -> (total: Option<C>)
        requires
            obeys_concrete_eq::<N>(),
            self.walk_cost(path@) <= C::limit(),
        ensures
            match total {
                Some(cost) => self.is_walk(path@) && cost.value() == self.walk_cost(path@),
                None => !self.is_walk(path@),
            },
    {
        if path.len() == 0 {
            return None;
        }
        let ghost edges = self.forward();
        let mut total = C::zero();
        let mut k: usize = 1;
        assert(path@.take(1).len() == 1);
        while k < path.len()
            invariant
                1 <= k <= path.len(),
                obeys_concrete_eq::<N>(),
                edges == self.forward(),
                self.walk_cost(path@) <= C::limit(),
                is_walk(edges, path@.take(k as int)),
                total.value() == walk_cost(edges, path@.take(k as int)),
            decreases path.len() - k,
        {
            proof {
                lemma_cost_grows(edges, path@, k + 1);
                assert(path@.take(k + 1).drop_last() =~= path@.take(k as int));
            }
            match self.edge_cost(path[k - 1], path[k]) {
                Some(cost) => {
                    proof {
                        lemma_walk_push(edges, path@.take(k as int), path@[k as int]);
                        assert(path@.take(k + 1) =~= path@.take(k as int).push(path@[k as int]));
                    }
                    total = total.plus(cost);
                },
                None => {
                    assert(super::walk::hop(edges, path@, k - 1) is None);
                    return None;
                },
            }
            k += 1;
        }
        assert(path@.take(k as int) =~= path@);
        Some(total)
    }

    /// Whether the cost type can hold `hops` times the highest cost of an
    /// edge. If it can, it can hold the cost of every walk of at most `hops`
    /// edges, along the edges or against them.
    pub fn costs_fit(&self, hops: usize) -> (fit: bool)
        ensures
            fit <==> hops * highest_cost(self.adjacency()) <= C::limit(),
            fit ==> forall|start: N| #[trigger] self.fits(start, hops as nat),
            fit ==> forall|end: N| #[trigger] walks_fit(self.backward(), end, hops as nat),
    {
        let highest = self.edges.highest_cost();
        let ghost high = highest.value();
        let mut total = C::zero();
        let mut taken: usize = 0;
        if !C::zero().less(highest) {
            taken = hops;
            assert(hops * high == 0) by (nonlinear_arith)
                requires
                    high == 0,
            ;
        }
        assert(0 * high == 0) by (nonlinear_arith);
        while taken < hops
            invariant
                taken <= hops,
                high == highest.value(),
                high == highest_cost(self.adjacency()),
                total.value() == taken * high || (high == 0 && taken == hops),
                total.value() <= C::limit(),
            decreases hops - taken,
        {
            match total.checked_plus(highest) {
                Some(sum) => {
                    assert((taken + 1) * high == taken * high + high) by (nonlinear_arith);
                    total = sum;
                },
                None => {
                    assert(hops * high >= (taken + 1) * high) by (nonlinear_arith)
                        requires
                            taken + 1 <= hops,
                    ;
                    assert((taken + 1) * high == taken * high + high) by (nonlinear_arith);
                    return false;
                },
            }
            taken += 1;
        }
        proof {
            lemma_highest_cost(self.adjacency());
            assert forall|start: N| #[trigger] self.fits(start, hops as nat) by {
                lemma_bounded_walks_fit(self.forward(), start, hops as nat, high);
            }
            assert forall|end: N| #[trigger] walks_fit(self.backward(), end, hops as nat) by {
                lemma_bounded_walks_fit(self.backward(), end, hops as nat, high);
            }
        }
        true
    }

    /// The graph's adjacency index.
    pub fn edges(&self) -> (edges: &StateGraphEdges<N, C>)
        ensures
            edges@ == self.adjacency(),
    {
        &self.edges
    }
}

/// The position of the first entry of `list` keyed by `key`.
pub fn find_key<N: Copy + PartialEq, X>(list: &Vec<(N, X)>, key: N) -> (found: Option<usize>)
    requires
        obeys_concrete_eq::<N>(),
    ensures
        match found {
            Some(i) => i < list.len() && list[i as int].0 == key && forall|j: int|
                0 <= j < i ==> (#[trigger] list[j]).0 != key,
            None => forall|j: int| 0 <= j < list.len() ==> (#[trigger] list[j]).0 != key,
        },
{
    proof {
        reveal(obeys_concrete_eq);
    }
    let mut i: usize = 0;
    while i < list.len()
        invariant
            i <= list.len(),
            N::obeys_eq_spec(),
            forall|a: N, b: N| a.eq_spec(&b) <==> a == b,
            forall|j: int| 0 <= j < i ==> (#[trigger] list[j]).0 != key,
        decreases list.len() - i,
    {
        if list[i].0 == key {
            return Some(i);
        }
        i += 1;
    }
    None
}

/// Position `j` holds the first occurrence of its node in `nodes`.
pub open spec fn is_first<N>(nodes: Seq<N>, j: int) -> bool {
    0 <= j < nodes.len() && forall|k: int| 0 <= k < j ==> nodes[k] != nodes[j]
}

/// The first position of `node` in `nodes`.
pub fn first_index<N: Copy + PartialEq>(nodes: &[N], node: N) -> (found: Option<usize>)
    requires
        obeys_concrete_eq::<N>(),
    ensures
        match found {
            Some(j) => is_first(nodes@, j as int) && nodes[j as int] == node,
            None => !nodes@.contains(node),
        },
{
    proof {
        reveal(obeys_concrete_eq);
    }
    let mut i: usize = 0;
    while i < nodes.len()
        invariant
            i <= nodes.len(),
            N::obeys_eq_spec(),
            forall|a: N, b: N| a.eq_spec(&b) <==> a == b,
            forall|k: int| 0 <= k < i ==> nodes[k] != node,
        decreases nodes.len() - i,
    {
        if nodes[i] == node {
            return Some(i);
        }
        i += 1;
    }
    None
}

/// Whether `node` is one of `list`.
pub fn contains_node<N: Copy + PartialEq>(list: &[N], node: N) -> (found: bool)
    requires
        obeys_concrete_eq::<N>(),
    ensures
        found == list@.contains(node),
{
    first_index(list, node).is_some()
}

} // verus!
