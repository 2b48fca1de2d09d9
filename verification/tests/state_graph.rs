use ai_lmao::search::state_graph::GraphIntegrityError;
use ai_lmao::search::state_graph::StateGraph;
use ai_lmao::search::state_graph::StateGraphEdges;

fn square() -> StateGraph<u32, u16> {
    let edges = StateGraphEdges::from_bidirectional(&[(1, 2, 10), (2, 3, 20), (3, 4, 30), (4, 1, 40)]);
    StateGraph::new(vec![1, 2, 3, 4], edges).unwrap()
}

#[test]
fn new_accepts_an_index_over_its_nodes() {
    let graph = square();
    assert_eq!(graph.nodes(), &[1, 2, 3, 4]);
}

#[test]
fn new_keeps_nodes_without_edges() {
    let edges: StateGraphEdges<u32, u16> = StateGraphEdges::from_bidirectional(&[(1, 2, 5)]);
    let graph = StateGraph::new(vec![1, 2, 3], edges).unwrap();
    assert_eq!(graph.nodes(), &[1, 2, 3]);
    assert!(graph.edges().get_outgoing(3).is_none());
}

#[test]
fn new_rejects_an_unknown_source() {
    let edges: StateGraphEdges<u32, u16> = StateGraphEdges::from_directed(&[(9, 1, 5)]);
    let built = StateGraph::new(vec![1, 2], edges);
    assert_eq!(built.unwrap_err(), GraphIntegrityError {});
}

#[test]
fn new_rejects_an_unknown_target() {
    let edges: StateGraphEdges<u32, u16> = StateGraphEdges::from_directed(&[(1, 9, 5)]);
    let built = StateGraph::new(vec![1, 2], edges);
    assert!(built.is_err());
}

#[test]
fn new_rejects_an_unknown_end_of_an_undirected_transition() {
    let edges: StateGraphEdges<u32, u16> =
        StateGraphEdges::from_bidirectional(&[(1, 2, 5), (2, 3, 5)]);
    assert!(StateGraph::new(vec![1, 2], edges).is_err());
}

#[test]
fn new_accepts_an_empty_graph() {
    let edges: StateGraphEdges<u32, u16> = StateGraphEdges::from_bidirectional(&[]);
    let graph = StateGraph::new(Vec::new(), edges).unwrap();
    assert!(graph.nodes().is_empty());
}

#[test]
fn from_bidirectional_records_both_directions() {
    let graph = square();
    assert_eq!(graph.edge_cost(1, 2), Some(10));
    assert_eq!(graph.edge_cost(2, 1), Some(10));
    assert_eq!(graph.edge_cost(1, 3), None);
}

#[test]
fn from_directed_records_one_direction() {
    let edges: StateGraphEdges<u32, u16> = StateGraphEdges::from_directed(&[(1, 2, 10)]);
    let graph = StateGraph::new(vec![1, 2], edges).unwrap();
    assert_eq!(graph.edge_cost(1, 2), Some(10));
    assert_eq!(graph.edge_cost(2, 1), None);
}

#[test]
fn the_lower_cost_wins() {
    let edges: StateGraphEdges<u32, u16> =
        StateGraphEdges::from_bidirectional(&[(1, 2, 10), (1, 2, 4), (2, 1, 7)]);
    let graph = StateGraph::new(vec![1, 2], edges).unwrap();
    assert_eq!(graph.edge_cost(1, 2), Some(4));
    assert_eq!(graph.edge_cost(2, 1), Some(4));
}

#[test]
fn the_lower_cost_wins_when_it_comes_first() {
    let edges: StateGraphEdges<u32, u16> =
        StateGraphEdges::from_directed(&[(1, 2, 3), (1, 2, 8)]);
    let graph = StateGraph::new(vec![1, 2], edges).unwrap();
    assert_eq!(graph.edge_cost(1, 2), Some(3));
}

#[test]
fn get_outgoing_lists_neighbours_in_the_order_recorded() {
    let edges: StateGraphEdges<u32, u16> =
        StateGraphEdges::from_directed(&[(1, 3, 30), (1, 2, 20), (2, 1, 5), (1, 3, 7)]);
    assert_eq!(edges.get_outgoing(1), Some(&vec![(3, 7), (2, 20)]));
    assert_eq!(edges.get_outgoing(2), Some(&vec![(1, 5)]));
}

#[test]
fn get_outgoing_tells_an_absent_node_from_one_without_neighbours() {
    let edges: StateGraphEdges<u32, u16> = StateGraphEdges::from_directed(&[(1, 2, 20)]);
    assert!(edges.get_outgoing(1).is_some());
    assert!(edges.get_outgoing(2).is_none());
    assert!(edges.get_outgoing(7).is_none());
}

#[test]
fn get_incoming_lists_the_sources_in_index_order() {
    let edges: StateGraphEdges<u32, u16> =
        StateGraphEdges::from_directed(&[(1, 3, 30), (2, 3, 20), (3, 1, 5), (4, 3, 1)]);
    assert_eq!(edges.get_incoming(3), vec![(1, 30), (2, 20), (4, 1)]);
    assert_eq!(edges.get_incoming(1), vec![(3, 5)]);
    assert_eq!(edges.get_incoming(4), Vec::new());
}

#[test]
fn successors_of_a_node_without_edges_are_none() {
    let graph = square();
    let none = Vec::new();
    assert!(graph.successors(9, &none).is_empty());
    assert_eq!(graph.successors(1, &none), &vec![(2, 10), (4, 40)]);
}

#[test]
fn predecessors_follow_edges_backwards() {
    let edges: StateGraphEdges<u32, u16> = StateGraphEdges::from_directed(&[(1, 2, 3), (3, 2, 4)]);
    let graph = StateGraph::new(vec![1, 2, 3], edges).unwrap();
    assert_eq!(graph.predecessors(2), vec![(1, 3), (3, 4)]);
    assert_eq!(graph.predecessors(1), Vec::new());
}

#[test]
fn path_cost_adds_up_the_edges() {
    let graph = square();
    assert_eq!(graph.path_cost(&[1, 2, 3, 4]), Some(60));
    assert_eq!(graph.path_cost(&[1, 4, 3]), Some(70));
    assert_eq!(graph.path_cost(&[3]), Some(0));
}

#[test]
fn path_cost_of_a_node_outside_the_graph_is_zero() {
    let graph = square();
    assert_eq!(graph.path_cost(&[9]), Some(0));
}

#[test]
fn path_cost_refuses_what_is_no_walk() {
    let graph = square();
    assert_eq!(graph.path_cost(&[1, 3]), None);
    assert_eq!(graph.path_cost(&[1, 2, 4]), None);
    assert_eq!(graph.path_cost(&[]), None);
}

#[test]
fn highest_cost_is_the_highest_of_all_edges() {
    assert_eq!(square().edges().highest_cost(), 40);
    let none: StateGraphEdges<u32, u16> = StateGraphEdges::from_directed(&[]);
    assert_eq!(none.highest_cost(), 0);
}

#[test]
fn costs_fit_while_the_highest_cost_times_the_hops_can_be_held() {
    let graph = square();
    assert!(graph.costs_fit(0));
    assert!(graph.costs_fit(8));
    assert!(graph.costs_fit(1638));
    assert!(!graph.costs_fit(1639));
    assert!(!graph.costs_fit(usize::MAX));
}

#[test]
fn costs_fit_in_a_graph_without_costs() {
    let edges: StateGraphEdges<u32, u16> = StateGraphEdges::from_bidirectional(&[(1, 2, 0)]);
    let graph = StateGraph::new(vec![1, 2], edges).unwrap();
    assert!(graph.costs_fit(usize::MAX));
    let empty: StateGraph<u32, u16> =
        StateGraph::new(Vec::new(), StateGraphEdges::from_directed(&[])).unwrap();
    assert!(empty.costs_fit(usize::MAX));
}
