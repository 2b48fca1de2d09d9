//! What a search hands back.

use core::cmp::Ordering;
use super::cost::HasZero;
use vstd::prelude::*;
use vstd::std_specs::cmp::{PartialEqSpecImpl, PartialOrdSpecImpl};

verus! {

/// A node that a search has reached, the path that led to it, first node
/// first and `node` last, and the accumulated cost of that path.
///
/// Results are compared by cost alone: two results of equal cost are equal
/// whatever their nodes and paths are.
#[derive(Debug)]
pub struct SearchResult<N, C> {
    pub node: N,
    pub cost: C,
    pub path: Vec<N>,
}

/// What a `SearchResult` stands for: the node, the cost as a number, and
/// the path as a sequence.
pub struct Route<N> {
    pub node: N,
    pub cost: nat,
    pub path: Seq<N>,
}

impl<N, C: HasZero> View for SearchResult<N, C> {
    type V = Route<N>;

    open spec fn view(&self) -> Route<N> {
        Route { node: self.node, cost: self.cost.value(), path: self.path@ }
    }
}

/// The route at `start` that has not moved yet.
pub open spec fn origin<N>(start: N) -> Route<N> {
    Route { node: start, cost: 0, path: seq![start] }
}

/// What an optional result stands for.
pub open spec fn route_of<N, C: HasZero>(found: Option<SearchResult<N, C>>) -> Option<Route<N>> {
    match found {
        Some(result) => Some(result@),
        None => None,
    }
}

/// The routes that a list of results stands for.
pub open spec fn routes<N, C: HasZero>(list: Seq<SearchResult<N, C>>) -> Seq<Route<N>> {
    list.map_values(|r: SearchResult<N, C>| r@)
}

/// The routes that a list of scored results stands for.
pub open spec fn scored_routes<N, C: HasZero>(list: Seq<(isize, SearchResult<N, C>)>) -> Seq<
    Route<N>,
> {
    list.map_values(|e: (isize, SearchResult<N, C>)| e.1@)
}

/// The scored routes that a list of scored results stands for.
pub open spec fn scored<N, C: HasZero>(list: Seq<(isize, SearchResult<N, C>)>) -> Seq<
    (isize, Route<N>),
> {
    list.map_values(|e: (isize, SearchResult<N, C>)| (e.0, e.1@))
}

/// A copy of `path`.
pub fn copy_path<N: Copy>(path: &Vec<N>) -> (copy: Vec<N>)
    ensures
        copy@ == path@,
{
    let mut copy: Vec<N> = Vec::new();
    let mut i: usize = 0;
    while i < path.len()
        invariant
            i <= path.len(),
            copy@ == path@.take(i as int),
        decreases path.len() - i,
    {
        copy.push(path[i]);
        assert(path@.take(i + 1) =~= path@.take(i as int).push(path@[i as int]));
        i += 1;
    }
    assert(path@.take(i as int) =~= path@);
    copy
}

/// A copy of `path` with `node` added at its end.
pub fn extend_path<N: Copy>(path: &Vec<N>, node: N) -> (longer: Vec<N>)
    ensures
        longer@ == path@.push(node),
{
    let mut longer = copy_path(path);
    longer.push(node);
    longer
}

impl<N: Copy, C: HasZero> SearchResult<N, C> {
    /// A copy of this result.
    pub fn duplicate(&self) -> (copy: SearchResult<N, C>)
        ensures
            copy@ == self@,
    {
        SearchResult { node: self.node, cost: self.cost, path: copy_path(&self.path) }
    }

    /// The result that stands at `start` without having moved.
    pub fn at_start(start: N) -> (first: SearchResult<N, C>)
        ensures
            first@ == (Route { node: start, cost: 0, path: seq![start] }),
    {
        let mut path: Vec<N> = Vec::new();
        path.push(start);
        assert(path@ =~= seq![start]);
        SearchResult { node: start, cost: C::zero(), path }
    }

    /// The result one edge further: at `node`, at `cost`, by this result's
    /// path and then `node`.
    pub fn step_to(&self, node: N, cost: C) -> (next: SearchResult<N, C>)
        ensures
            next@ == (Route { node, cost: cost.value(), path: self.path@.push(node) }),
    {
        SearchResult { node, cost, path: extend_path(&self.path, node) }
    }
}

impl<N, C: HasZero> PartialEq for SearchResult<N, C> {
    fn eq(&self, other: &Self) -> (same: bool) {
        !self.cost.less(other.cost) && !other.cost.less(self.cost)
    }
}

impl<N, C: HasZero> PartialEqSpecImpl for SearchResult<N, C> {
    open spec fn obeys_eq_spec() -> bool {
        true
    }

    open spec fn eq_spec(&self, other: &Self) -> bool {
        self.cost.value() == other.cost.value()
    }
}

impl<N, C: HasZero> Eq for SearchResult<N, C> {
}

impl<N, C: HasZero> PartialOrd for SearchResult<N, C> {
    fn partial_cmp(&self, other: &Self) -> (order: Option<Ordering>) {
        if self.cost.less(other.cost) {
            Some(Ordering::Less)
        } else if other.cost.less(self.cost) {
            Some(Ordering::Greater)
        } else {
            Some(Ordering::Equal)
        }
    }
}

impl<N, C: HasZero> PartialOrdSpecImpl for SearchResult<N, C> {
    open spec fn obeys_partial_cmp_spec() -> bool {
        true
    }

    open spec fn partial_cmp_spec(&self, other: &Self) -> Option<Ordering> {
        if self.cost.value() < other.cost.value() {
            Some(Ordering::Less)
        } else if other.cost.value() < self.cost.value() {
            Some(Ordering::Greater)
        } else {
            Some(Ordering::Equal)
        }
    }
}

} // verus!
