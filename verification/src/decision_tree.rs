//! A decision tree: inner nodes split on a feature of the data, leaves hold
//! labels.

use vstd::prelude::*;

verus! {

/// A named way to read a feature off the data.
pub struct Extractor<E> {
    pub name: &'static str,
    pub extract: E,
}

/// A named comparison of a split's value with a feature.
pub struct Comparator<C> {
    pub name: &'static str,
    pub compare: C,
}

/// A node of a decision tree: it resolves data to a label.
pub trait SplitNode<D, L> {
    /// Whether the node can be asked about `data`.
    spec fn ready(&self, data: &D) -> bool;

    /// Whether the node may resolve `data` to `label`.
    spec fn labels(&self, data: &D, label: &L) -> bool;

    /// The label of `data`.
    fn resolve(&self, data: &D) -> (label: &L)
        requires
            self.ready(data),
        ensures
            self.labels(data, label),
    ;
}

/// A node of a decision tree: a split, or a leaf with its label.
#[verifier::reject_recursive_types(D)]
#[verifier::reject_recursive_types(L)]
pub enum DTreeNode<D, L> {
    Split(Box<dyn SplitNode<D, L>>),
    Leaf(L),
}

/// An inner node: data whose feature compares true against `value` goes
/// right, other data goes left.
#[verifier::reject_recursive_types(D)]
#[verifier::reject_recursive_types(L)]
pub struct DTreeSplit<D, L, E, C, T> {
    pub extractor: Extractor<E>,
    pub comparator: Comparator<C>,
    pub value: T,
    pub left: DTreeNode<D, L>,
    pub right: DTreeNode<D, L>,
}

impl<D, L, E, C, T> SplitNode<D, L> for DTreeSplit<D, L, E, C, T> where
    E: Fn(&D) -> &T,
    C: Fn(&T, &T) -> bool,
 {
    open spec fn ready(&self, data: &D) -> bool {
        &&& self.extractor.extract.requires((data,))
        &&& forall|other: &T| self.comparator.compare.requires((&self.value, other))
        &&& self.left.ready(data)
        &&& self.right.ready(data)
    }

    open spec fn labels(&self, data: &D, label: &L) -> bool {
        exists|other: &T, right: bool|
            {
                &&& self.extractor.extract.ensures((data,), other)
                &&& #[trigger] self.comparator.compare.ensures((&self.value, other), right)
                &&& if right {
                    self.right.labels(data, label)
                } else {
                    self.left.labels(data, label)
                }
            }
    }

    fn resolve(&self, data: &D) -> (label: &L) {
        let other = (self.extractor.extract)(data);
        if (self.comparator.compare)(&self.value, other) {
            self.right.resolve(data)
        } else {
            self.left.resolve(data)
        }
    }
}

impl<D, L> SplitNode<D, L> for DTreeNode<D, L> {
    open spec fn ready(&self, data: &D) -> bool {
        match self {
            DTreeNode::Split(s) => s.ready(data),
            DTreeNode::Leaf(_) => true,
        }
    }

    open spec fn labels(&self, data: &D, label: &L) -> bool {
        match self {
            DTreeNode::Split(s) => s.labels(data, label),
            DTreeNode::Leaf(l) => label == l,
        }
    }

    fn resolve(&self, data: &D) -> (label: &L) {
        match self {
            DTreeNode::Split(s) => s.resolve(data),
            DTreeNode::Leaf(l) => l,
        }
    }
}

} // verus!
