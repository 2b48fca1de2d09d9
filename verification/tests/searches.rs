use ai_lmao::search::best_first;
use ai_lmao::search::bidirectional_best_first;
use ai_lmao::search::breadth_first;
use ai_lmao::search::depth_first;
use ai_lmao::search::iterative_deepening;
use ai_lmao::search::state_graph::StateGraph;
use ai_lmao::search::state_graph::StateGraphEdges;
use ai_lmao::search::SearchResult;

fn directed(nodes: Vec<u32>, transitions: &[(u32, u32, u16)]) -> StateGraph<u32, u16> {
    StateGraph::new(nodes, StateGraphEdges::from_directed(transitions)).unwrap()
}

fn undirected(nodes: Vec<u32>, transitions: &[(u32, u32, u16)]) -> StateGraph<u32, u16> {
    StateGraph::new(nodes, StateGraphEdges::from_bidirectional(transitions)).unwrap()
}

/// Two ways from 0 to 4: over 1, with two dear edges, and over 2 and 3,
/// with three cheap ones.
fn two_ways() -> StateGraph<u32, u16> {
    undirected(vec![0, 1, 2, 3, 4], &[(0, 1, 10), (1, 4, 10), (0, 2, 1), (2, 3, 1), (3, 4, 1)])
}

/// A graph in which breadth-first search replaces the route to 2 before it
/// expands 2.
fn overtaken() -> StateGraph<u32, u16> {
    directed(vec![0, 1, 2, 3], &[(0, 1, 1), (0, 2, 1), (1, 2, 1), (2, 3, 1)])
}

fn by_cost(candidate: &SearchResult<u32, u16>) -> isize {
    candidate.cost as isize
}

#[test]
fn breadth_first_returns_the_start_if_it_is_a_goal() {
    let found = breadth_first(&two_ways(), 0, |n| n == 0).unwrap();
    assert_eq!(found.node, 0);
    assert_eq!(found.cost, 0);
    assert_eq!(found.path, vec![0]);
}

#[test]
fn breadth_first_finds_the_fewest_edges_in_a_layered_graph() {
    let graph = undirected(vec![0, 1, 2, 3, 4, 5], &[(0, 1, 9), (1, 5, 9), (0, 2, 1), (2, 3, 1), (3, 4, 1), (4, 5, 1)]);
    let found = breadth_first(&graph, 0, |n| n == 5).unwrap();
    assert_eq!(found.path, vec![0, 1, 5]);
    assert_eq!(found.cost, 18);
}

#[test]
fn breadth_first_ignores_costs() {
    let found = breadth_first(&two_ways(), 0, |n| n == 4).unwrap();
    assert_eq!(found.node, 4);
    assert_eq!(found.path, vec![0, 1, 4]);
    assert_eq!(found.cost, 20);
}

#[test]
fn breadth_first_keeps_the_route_recorded_last() {
    let found = breadth_first(&overtaken(), 0, |n| n == 3).unwrap();
    assert_eq!(found.path, vec![0, 1, 2, 3]);
    assert_eq!(found.cost, 3);
}

#[test]
fn breadth_first_tests_a_goal_when_it_reaches_it() {
    let graph = directed(vec![0, 1, 2], &[(0, 1, 1), (0, 2, 1), (1, 2, 1)]);
    let found = breadth_first(&graph, 0, |n| n == 2).unwrap();
    assert_eq!(found.path, vec![0, 2]);
}

#[test]
fn breadth_first_gives_up_on_an_unreachable_goal() {
    let graph = undirected(vec![0, 1, 2, 3], &[(0, 1, 1), (2, 3, 1)]);
    assert!(breadth_first(&graph, 0, |n| n == 3).is_none());
}

#[test]
fn breadth_first_ends_on_a_cycle_without_a_goal() {
    let graph = undirected(vec![0, 1, 2], &[(0, 1, 1), (1, 2, 1), (2, 0, 1)]);
    assert!(breadth_first(&graph, 0, |_| false).is_none());
}

#[test]
fn breadth_first_from_a_node_outside_the_graph() {
    assert!(breadth_first(&two_ways(), 9, |n| n == 4).is_none());
    assert_eq!(breadth_first(&two_ways(), 9, |n| n == 9).unwrap().path, vec![9]);
}

#[test]
fn depth_first_follows_the_edge_recorded_last() {
    let found = depth_first(&two_ways(), 0, None, |n| n == 4).unwrap();
    assert_eq!(found.path, vec![0, 2, 3, 4]);
    assert_eq!(found.cost, 3);
}

#[test]
fn depth_first_stays_within_the_depth_limit() {
    let found = depth_first(&two_ways(), 0, Some(3), |n| n == 4).unwrap();
    assert_eq!(found.path, vec![0, 1, 4]);
    assert_eq!(found.cost, 20);
}

#[test]
fn depth_first_finds_nothing_beyond_the_depth_limit() {
    assert!(depth_first(&two_ways(), 0, Some(2), |n| n == 4).is_none());
    assert!(depth_first(&two_ways(), 0, Some(1), |n| n == 1).is_none());
}

#[test]
fn depth_first_reports_a_goal_at_the_limit() {
    let found = depth_first(&two_ways(), 0, Some(2), |n| n == 1).unwrap();
    assert_eq!(found.path, vec![0, 1]);
}

#[test]
fn depth_first_looks_at_the_start_whatever_the_limit() {
    let found = depth_first(&two_ways(), 0, Some(0), |n| n == 0).unwrap();
    assert_eq!(found.path, vec![0]);
    assert_eq!(found.cost, 0);
    assert!(depth_first(&two_ways(), 0, Some(0), |n| n == 1).is_none());
}

#[test]
fn depth_first_avoids_cycles_on_its_path() {
    let graph = undirected(vec![0, 1, 2], &[(0, 1, 1), (1, 2, 1), (2, 0, 1)]);
    assert!(depth_first(&graph, 0, None, |_| false).is_none());
}

#[test]
fn depth_first_from_a_node_outside_the_graph() {
    assert!(depth_first(&two_ways(), 9, None, |n| n == 4).is_none());
}

#[test]
fn iterative_deepening_finds_the_shortest_path() {
    let found = iterative_deepening(&two_ways(), 0, None, |n| n == 4).unwrap();
    assert_eq!(found.path, vec![0, 1, 4]);
    assert_eq!(found.cost, 20);
}

#[test]
fn iterative_deepening_stops_at_its_limit() {
    assert!(iterative_deepening(&two_ways(), 0, Some(2), |n| n == 4).is_none());
    assert!(iterative_deepening(&two_ways(), 0, Some(3), |n| n == 4).is_some());
}

#[test]
fn iterative_deepening_gives_up_without_a_limit() {
    let graph = undirected(vec![0, 1, 2, 3], &[(0, 1, 1), (1, 2, 1), (2, 0, 1)]);
    assert!(iterative_deepening(&graph, 0, None, |n| n == 3).is_none());
}

#[test]
fn iterative_deepening_finds_a_goal_at_the_start() {
    let found = iterative_deepening(&two_ways(), 0, Some(0), |n| n == 0).unwrap();
    assert_eq!(found.path, vec![0]);
}

#[test]
fn uniform_cost_search_finds_the_cheapest_path() {
    let found = best_first(&two_ways(), 0, |n| n == 4, by_cost).unwrap();
    assert_eq!(found.node, 4);
    assert_eq!(found.path, vec![0, 2, 3, 4]);
    assert_eq!(found.cost, 3);
}

#[test]
fn best_first_follows_the_score() {
    let found = best_first(&two_ways(), 0, |n| n == 4, |c: &SearchResult<u32, u16>| {
        -(c.cost as isize)
    })
    .unwrap();
    assert_eq!(found.path, vec![0, 1, 4]);
    assert_eq!(found.cost, 20);
}

#[test]
fn best_first_relaxes_a_node_reached_more_cheaply() {
    let graph = directed(vec![0, 1, 2, 3], &[(0, 1, 10), (0, 2, 1), (2, 1, 1), (1, 3, 1)]);
    let found = best_first(&graph, 0, |n| n == 3, by_cost).unwrap();
    assert_eq!(found.path, vec![0, 2, 1, 3]);
    assert_eq!(found.cost, 3);
}

#[test]
fn best_first_keeps_the_first_of_two_equal_routes() {
    let graph = directed(vec![0, 1, 2, 3], &[(0, 1, 1), (0, 2, 1), (1, 3, 1), (2, 3, 1)]);
    let found = best_first(&graph, 0, |n| n == 3, by_cost).unwrap();
    assert_eq!(found.path, vec![0, 1, 3]);
    assert_eq!(found.cost, 2);
}

#[test]
fn best_first_takes_edges_without_cost() {
    let graph = undirected(vec![0, 1, 2], &[(0, 1, 0), (1, 2, 0), (0, 2, 5)]);
    let found = best_first(&graph, 0, |n| n == 2, by_cost).unwrap();
    assert_eq!(found.path, vec![0, 1, 2]);
    assert_eq!(found.cost, 0);
}

#[test]
fn best_first_gives_up_on_an_unreachable_goal() {
    let graph = undirected(vec![0, 1, 2, 3], &[(0, 1, 1), (2, 3, 1)]);
    assert!(best_first(&graph, 0, |n| n == 3, by_cost).is_none());
}

#[test]
fn best_first_returns_the_start_if_it_is_a_goal() {
    let found = best_first(&two_ways(), 2, |n| n == 2, by_cost).unwrap();
    assert_eq!(found.path, vec![2]);
    assert_eq!(found.cost, 0);
}

#[test]
fn bidirectional_returns_the_first_solution_if_all_are_accepted() {
    let found = bidirectional_best_first(&two_ways(), 0, 4, |_| true).unwrap();
    assert_eq!(found.node, 4);
    assert_eq!(found.path[0], 0);
    assert_eq!(found.path[found.path.len() - 1], 4);
    assert_eq!(two_ways().path_cost(&found.path), Some(found.cost));
}

#[test]
fn bidirectional_finds_the_cheapest_if_no_other_is_accepted() {
    let found = bidirectional_best_first(&two_ways(), 0, 4, |s: &SearchResult<u32, u16>| {
        s.cost <= 3
    })
    .unwrap();
    assert_eq!(found.node, 4);
    assert_eq!(found.path, vec![0, 2, 3, 4]);
    assert_eq!(found.cost, 3);
}

#[test]
fn bidirectional_agrees_with_uniform_cost_search() {
    let graph = undirected(
        vec![0, 1, 2, 3, 4, 5],
        &[(0, 1, 7), (0, 2, 9), (0, 5, 14), (1, 2, 10), (1, 3, 15), (2, 3, 11), (2, 5, 2), (3, 4, 6), (4, 5, 9)],
    );
    let uniform = best_first(&graph, 0, |n| n == 4, by_cost).unwrap();
    assert_eq!(uniform.cost, 20);
    let cheapest = uniform.cost;
    let meeting =
        bidirectional_best_first(&graph, 0, 4, |s: &SearchResult<u32, u16>| s.cost <= cheapest)
            .unwrap();
    assert_eq!(meeting.cost, uniform.cost);
    assert_eq!(meeting.path, vec![0, 2, 5, 4]);
}

#[test]
fn bidirectional_gives_up_if_nothing_is_accepted() {
    assert!(bidirectional_best_first(&two_ways(), 0, 4, |_| false).is_none());
}

#[test]
fn bidirectional_gives_up_on_an_unreachable_end() {
    let graph = undirected(vec![0, 1, 2, 3], &[(0, 1, 1), (2, 3, 1)]);
    assert!(bidirectional_best_first(&graph, 0, 3, |_| true).is_none());
}

#[test]
fn bidirectional_follows_directed_edges_from_start_to_end() {
    let graph = directed(vec![0, 1, 2], &[(0, 1, 4), (1, 2, 5)]);
    let found = bidirectional_best_first(&graph, 0, 2, |_| true).unwrap();
    assert_eq!(found.path, vec![0, 1, 2]);
    assert_eq!(found.cost, 9);
    assert_eq!(found.node, 2);
    assert!(bidirectional_best_first(&graph, 2, 0, |_| true).is_none());
}

#[test]
fn bidirectional_passes_the_meeting_node_once() {
    let graph = undirected(vec![0, 1, 2, 3, 4], &[(0, 1, 1), (1, 2, 1), (2, 3, 1), (3, 4, 1)]);
    let found = bidirectional_best_first(&graph, 0, 4, |_| true).unwrap();
    assert_eq!(found.path, vec![0, 1, 2, 3, 4]);
    assert_eq!(found.cost, 4);
}

#[test]
fn bidirectional_with_one_node_alone_finds_nothing() {
    let graph = undirected(vec![0], &[]);
    assert!(bidirectional_best_first(&graph, 0, 0, |_| true).is_none());
}

#[test]
fn every_search_reports_the_cost_of_its_path() {
    let graph = two_ways();
    let goal = |n: u32| n == 4;
    let all = vec![
        breadth_first(&graph, 0, goal).unwrap(),
        depth_first(&graph, 0, None, goal).unwrap(),
        iterative_deepening(&graph, 0, None, goal).unwrap(),
        best_first(&graph, 0, goal, by_cost).unwrap(),
        bidirectional_best_first(&graph, 0, 4, |_| true).unwrap(),
    ];
    for found in all {
        assert_eq!(graph.path_cost(&found.path), Some(found.cost));
        assert_eq!(found.path[0], 0);
        assert_eq!(found.path[found.path.len() - 1], found.node);
        assert_eq!(found.node, 4);
    }
}
