use ai_lmao::search::best_first;
use ai_lmao::search::bidirectional_best_first;
use ai_lmao::search::breadth_first;
use ai_lmao::search::depth_first;
use ai_lmao::search::examples::generate_romania_roadmap;
use ai_lmao::search::examples::generate_romania_straigh_line_distance_to_bucharest;
use ai_lmao::search::examples::City;
use ai_lmao::search::iterative_deepening;
use ai_lmao::search::state_graph::find_key;
use ai_lmao::search::SearchResult;

fn to_bucharest(city: City) -> bool {
    city == City::Bucharest
}

fn straight_line(city: City) -> isize {
    let table = generate_romania_straigh_line_distance_to_bucharest();
    let place = find_key(&table, city).unwrap();
    table[place].1 as isize
}

#[test]
fn the_map_has_twenty_cities() {
    let graph = generate_romania_roadmap();
    assert_eq!(graph.nodes().len(), 20);
    assert_eq!(graph.nodes()[0], City::Oradea);
    assert_eq!(graph.nodes()[19], City::Neamt);
}

#[test]
fn the_map_has_twenty_three_roads_each_both_ways() {
    let graph = generate_romania_roadmap();
    let none = Vec::new();
    let mut count = 0;
    for city in graph.nodes() {
        count += graph.successors(*city, &none).len();
    }
    assert_eq!(count, 46);
    assert_eq!(graph.edge_cost(City::Arad, City::Sibiu), Some(140));
    assert_eq!(graph.edge_cost(City::Sibiu, City::Arad), Some(140));
    assert_eq!(graph.edge_cost(City::Arad, City::Bucharest), None);
}

#[test]
fn the_costs_of_the_map_fit() {
    let graph = generate_romania_roadmap();
    assert_eq!(graph.edges().highest_cost(), 211);
    assert!(graph.costs_fit(40));
    assert!(graph.costs_fit(310));
    assert!(!graph.costs_fit(311));
}

#[test]
fn roads_are_listed_in_the_order_given() {
    let graph = generate_romania_roadmap();
    assert_eq!(
        graph.edges().get_outgoing(City::Sibiu),
        Some(&vec![
            (City::RimnicuVilcea, 80),
            (City::Arad, 140),
            (City::Oradea, 151),
            (City::Fagaras, 99)
        ])
    );
}

#[test]
fn cities_have_names_and_places() {
    assert_eq!(City::RimnicuVilcea.name(), "Rimnicu Vilcea");
    assert_eq!(City::Arad.name(), "Arad");
    assert_eq!(City::Oradea.index(), 0);
    assert_eq!(City::Neamt.index(), 19);
    assert!(City::Arad == City::Arad);
    assert!(City::Arad != City::Sibiu);
}

#[test]
fn straight_line_distances_cover_every_city() {
    let table = generate_romania_straigh_line_distance_to_bucharest();
    assert_eq!(table.len(), 20);
    assert_eq!(table[0], (City::Arad, 366));
    assert_eq!(straight_line(City::Bucharest), 0);
    assert_eq!(straight_line(City::Sibiu), 253);
    let graph = generate_romania_roadmap();
    for city in graph.nodes() {
        assert!(find_key(&table, *city).is_some());
    }
}

#[test]
fn uniform_cost_search_from_arad_to_bucharest() {
    let graph = generate_romania_roadmap();
    let found = best_first(&graph, City::Arad, to_bucharest, |c: &SearchResult<City, u16>| {
        c.cost as isize
    })
    .unwrap();
    assert_eq!(found.cost, 418);
    assert_eq!(
        found.path,
        vec![City::Arad, City::Sibiu, City::RimnicuVilcea, City::Pitesti, City::Bucharest]
    );
    assert_eq!(found.node, City::Bucharest);
}

#[test]
fn search_by_cost_and_straight_line_from_arad_to_bucharest() {
    let graph = generate_romania_roadmap();
    let found = best_first(&graph, City::Arad, to_bucharest, |c: &SearchResult<City, u16>| {
        c.cost as isize + straight_line(c.node)
    })
    .unwrap();
    assert_eq!(found.cost, 418);
    assert_eq!(
        found.path,
        vec![City::Arad, City::Sibiu, City::RimnicuVilcea, City::Pitesti, City::Bucharest]
    );
}

#[test]
fn greedy_search_from_arad_to_bucharest() {
    let graph = generate_romania_roadmap();
    let found = best_first(&graph, City::Arad, to_bucharest, |c: &SearchResult<City, u16>| {
        straight_line(c.node)
    })
    .unwrap();
    assert_eq!(found.cost, 450);
    assert_eq!(found.path, vec![City::Arad, City::Sibiu, City::Fagaras, City::Bucharest]);
}

#[test]
fn breadth_first_from_arad_to_bucharest() {
    let graph = generate_romania_roadmap();
    let found = breadth_first(&graph, City::Arad, to_bucharest).unwrap();
    assert_eq!(found.path, vec![City::Arad, City::Sibiu, City::Fagaras, City::Bucharest]);
    assert_eq!(found.cost, 450);
    assert_eq!(found.node, City::Bucharest);
}

#[test]
fn depth_first_from_arad_to_bucharest() {
    let graph = generate_romania_roadmap();
    let found = depth_first(&graph, City::Arad, None, to_bucharest).unwrap();
    assert_eq!(found.path, vec![City::Arad, City::Sibiu, City::Fagaras, City::Bucharest]);
    assert_eq!(found.cost, 450);
}

#[test]
fn depth_first_from_arad_within_three_cities() {
    let graph = generate_romania_roadmap();
    assert!(depth_first(&graph, City::Arad, Some(3), to_bucharest).is_none());
    let found = depth_first(&graph, City::Arad, Some(4), to_bucharest).unwrap();
    assert_eq!(found.path.len(), 4);
}

#[test]
fn iterative_deepening_from_arad_to_bucharest() {
    let graph = generate_romania_roadmap();
    let found = iterative_deepening(&graph, City::Arad, None, to_bucharest).unwrap();
    assert_eq!(found.path, vec![City::Arad, City::Sibiu, City::Fagaras, City::Bucharest]);
    assert_eq!(found.cost, 450);
    assert!(iterative_deepening(&graph, City::Arad, Some(3), to_bucharest).is_none());
}

#[test]
fn bidirectional_search_from_arad_to_bucharest() {
    let graph = generate_romania_roadmap();
    let found = bidirectional_best_first(&graph, City::Arad, City::Bucharest, |_| true).unwrap();
    assert_eq!(found.node, City::Bucharest);
    assert_eq!(found.cost, 418);
    assert_eq!(
        found.path,
        vec![City::Arad, City::Sibiu, City::RimnicuVilcea, City::Pitesti, City::Bucharest]
    );
}

#[test]
fn bidirectional_search_agrees_with_uniform_cost_search_on_the_map() {
    let graph = generate_romania_roadmap();
    let uniform = best_first(&graph, City::Neamt, |c| c == City::Timisoara, |c: &SearchResult<
        City,
        u16,
    >| c.cost as isize)
    .unwrap();
    let cheapest = uniform.cost;
    let meeting = bidirectional_best_first(
        &graph,
        City::Neamt,
        City::Timisoara,
        |s: &SearchResult<City, u16>| s.cost <= cheapest,
    )
    .unwrap();
    assert_eq!(meeting.cost, uniform.cost);
    assert_eq!(graph.path_cost(&meeting.path), Some(meeting.cost));
    assert_eq!(meeting.path[0], City::Neamt);
    assert_eq!(meeting.node, City::Timisoara);
}

#[test]
fn reported_costs_are_the_sums_of_the_roads() {
    let graph = generate_romania_roadmap();
    let by_cost = |c: &SearchResult<City, u16>| c.cost as isize;
    let all = vec![
        breadth_first(&graph, City::Arad, to_bucharest).unwrap(),
        depth_first(&graph, City::Arad, None, to_bucharest).unwrap(),
        iterative_deepening(&graph, City::Arad, None, to_bucharest).unwrap(),
        best_first(&graph, City::Arad, to_bucharest, by_cost).unwrap(),
        bidirectional_best_first(&graph, City::Arad, City::Bucharest, |_| true).unwrap(),
    ];
    for found in all {
        assert_eq!(graph.path_cost(&found.path), Some(found.cost));
    }
}
