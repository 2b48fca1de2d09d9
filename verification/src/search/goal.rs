//! What a goal test says of nodes and walks.
//!
//! A goal test is a caller's function. Verus knows of its answers what the
//! function's own contract says of them, and no more. The contracts of the
//! searches therefore speak of what the test can answer, a node that it can
//! call a goal or a node that it can reject, and of a predicate that the test
//! computes.

use vstd::prelude::*;

verus! {

/// The test can call `node` a goal.
pub open spec fn accepts<N, G: Fn(N) -> bool>(is_goal: G, node: N) -> bool {
    is_goal.ensures((node,), true)
}

/// The test can reject `node`.
pub open spec fn rejects<N, G: Fn(N) -> bool>(is_goal: G, node: N) -> bool {
    is_goal.ensures((node,), false)
}

/// The test computes `goal`: whatever it answers for a node is what `goal`
/// says of the node.
pub open spec fn computes<N, G: Fn(N) -> bool>(is_goal: G, goal: spec_fn(N) -> bool) -> bool {
    forall|node: N, answer: bool|
        #[trigger] is_goal.ensures((node,), answer) ==> answer == goal(node)
}

/// The test can reject every node of `p` but the last.
pub open spec fn passed<N, G: Fn(N) -> bool>(is_goal: G, p: Seq<N>) -> bool {
    forall|k: int| 0 <= k < p.len() - 1 ==> rejects(is_goal, #[trigger] p[k])
}

} // verus!
