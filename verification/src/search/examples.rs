//! A road map of Romania, to try the searches on: twenty cities, the roads
//! between them with their lengths, and for each city the straight-line
//! distance to Bucharest.

use super::adjacency::{
    backward_of, bidirectional_index, edge_of, forward_of, lemma_lower_cost_wins,
};
use super::state_graph::{StateGraph, StateGraphEdges};
use super::walk::{lemma_bounded_walks_fit, walks_fit};
use vstd::laws_eq::obeys_concrete_eq;
use vstd::prelude::*;
use vstd::std_specs::cmp::PartialEqSpecImpl;

verus! {

/// A city on the road map.
#[derive(Clone, Copy, Debug, Eq, Hash)]
pub enum City {
    Oradea,
    Zerind,
    Arad,
    Sibiu,
    Fagaras,
    Timisoara,
    Lugoj,
    Mehadia,
    Drobeta,
    Craiova,
    RimnicuVilcea,
    Pitesti,
    Bucharest,
    Giurgiu,
    Urziceni,
    Hirsova,
    Eforie,
    Vaslui,
    Iasi,
    Neamt,
}

impl City {
    /// The place of the city in the list of cities.
    pub open spec fn ordinal(self) -> nat {
        match self {
            City::Oradea => 0,
            City::Zerind => 1,
            City::Arad => 2,
            City::Sibiu => 3,
            City::Fagaras => 4,
            City::Timisoara => 5,
            City::Lugoj => 6,
            City::Mehadia => 7,
            City::Drobeta => 8,
            City::Craiova => 9,
            City::RimnicuVilcea => 10,
            City::Pitesti => 11,
            City::Bucharest => 12,
            City::Giurgiu => 13,
            City::Urziceni => 14,
            City::Hirsova => 15,
            City::Eforie => 16,
            City::Vaslui => 17,
            City::Iasi => 18,
            City::Neamt => 19,
        }
    }

    /// The place of the city in the list of cities.
    pub fn index(self) -> (place: u8)
        ensures
            place == self.ordinal(),
    {
        match self {
            City::Oradea => 0,
            City::Zerind => 1,
            City::Arad => 2,
            City::Sibiu => 3,
            City::Fagaras => 4,
            City::Timisoara => 5,
            City::Lugoj => 6,
            City::Mehadia => 7,
            City::Drobeta => 8,
            City::Craiova => 9,
            City::RimnicuVilcea => 10,
            City::Pitesti => 11,
            City::Bucharest => 12,
            City::Giurgiu => 13,
            City::Urziceni => 14,
            City::Hirsova => 15,
            City::Eforie => 16,
            City::Vaslui => 17,
            City::Iasi => 18,
            City::Neamt => 19,
        }
    }

    /// The characters of the city's name.
    pub open spec fn spec_name(self) -> Seq<char> {
        match self {
            City::Oradea => "Oradea"@,
            City::Zerind => "Zerind"@,
            City::Arad => "Arad"@,
            City::Sibiu => "Sibiu"@,
            City::Fagaras => "Fagaras"@,
            City::Timisoara => "Timisoara"@,
            City::Lugoj => "Lugoj"@,
            City::Mehadia => "Mehadia"@,
            City::Drobeta => "Drobeta"@,
            City::Craiova => "Craiova"@,
            City::RimnicuVilcea => "Rimnicu Vilcea"@,
            City::Pitesti => "Pitesti"@,
            City::Bucharest => "Bucharest"@,
            City::Giurgiu => "Giurgiu"@,
            City::Urziceni => "Urziceni"@,
            City::Hirsova => "Hirsova"@,
            City::Eforie => "Eforie"@,
            City::Vaslui => "Vaslui"@,
            City::Iasi => "Iasi"@,
            City::Neamt => "Neamt"@,
        }
    }

    /// The city's name.
    pub fn name(self) -> (name: &'static str)
        ensures
            name@ == self.spec_name(),
    {
        match self {
            City::Oradea => "Oradea",
            City::Zerind => "Zerind",
            City::Arad => "Arad",
            City::Sibiu => "Sibiu",
            City::Fagaras => "Fagaras",
            City::Timisoara => "Timisoara",
            City::Lugoj => "Lugoj",
            City::Mehadia => "Mehadia",
            City::Drobeta => "Drobeta",
            City::Craiova => "Craiova",
            City::RimnicuVilcea => "Rimnicu Vilcea",
            City::Pitesti => "Pitesti",
            City::Bucharest => "Bucharest",
            City::Giurgiu => "Giurgiu",
            City::Urziceni => "Urziceni",
            City::Hirsova => "Hirsova",
            City::Eforie => "Eforie",
            City::Vaslui => "Vaslui",
            City::Iasi => "Iasi",
            City::Neamt => "Neamt",
        }
    }
}

impl PartialEq for City {
    fn eq(&self, other: &Self) -> (same: bool) {
        self.index() == other.index()
    }
}

impl PartialEqSpecImpl for City {
    open spec fn obeys_eq_spec() -> bool {
        true
    }

    open spec fn eq_spec(&self, other: &Self) -> bool {
        self.ordinal() == other.ordinal()
    }
}

/// Two cities are equal to `==` exactly if they are the same city.
pub proof fn lemma_city_equality()
    ensures
        obeys_concrete_eq::<City>(),
{
    reveal(obeys_concrete_eq);
}

/// The cities of the map.
pub open spec fn romanian_cities() -> Seq<City> {
    seq![
        City::Oradea,
        City::Zerind,
        City::Arad,
        City::Sibiu,
        City::Fagaras,
        City::Timisoara,
        City::Lugoj,
        City::Mehadia,
        City::Drobeta,
        City::Craiova,
        City::RimnicuVilcea,
        City::Pitesti,
        City::Bucharest,
        City::Giurgiu,
        City::Urziceni,
        City::Hirsova,
        City::Eforie,
        City::Vaslui,
        City::Iasi,
        City::Neamt,
    ]
}

/// The roads of the map, each with its length; a road leads both ways.
pub open spec fn romanian_roads() -> Seq<(City, City, u16)> {
    seq![
        (City::Oradea, City::Zerind, 71u16),
        (City::Zerind, City::Arad, 75u16),
        (City::Arad, City::Timisoara, 118u16),
        (City::Timisoara, City::Lugoj, 111u16),
        (City::Lugoj, City::Mehadia, 70u16),
        (City::Mehadia, City::Drobeta, 75u16),
        (City::Drobeta, City::Craiova, 120u16),
        (City::Craiova, City::RimnicuVilcea, 146u16),
        (City::RimnicuVilcea, City::Sibiu, 80u16),
        (City::Sibiu, City::Arad, 140u16),
        (City::Sibiu, City::Oradea, 151u16),
        (City::Sibiu, City::Fagaras, 99u16),
        (City::Craiova, City::Pitesti, 138u16),
        (City::Pitesti, City::RimnicuVilcea, 97u16),
        (City::Fagaras, City::Bucharest, 211u16),
        (City::Pitesti, City::Bucharest, 101u16),
        (City::Giurgiu, City::Bucharest, 90u16),
        (City::Urziceni, City::Bucharest, 85u16),
        (City::Urziceni, City::Hirsova, 98u16),
        (City::Eforie, City::Hirsova, 86u16),
        (City::Urziceni, City::Vaslui, 142u16),
        (City::Iasi, City::Vaslui, 92u16),
        (City::Iasi, City::Neamt, 87u16),
    ]
}

/// For each city, the straight-line distance to Bucharest.
pub open spec fn straight_line_distances() -> Seq<(City, u16)> {
    seq![
        (City::Arad, 366u16),
        (City::Bucharest, 0u16),
        (City::Craiova, 160u16),
        (City::Drobeta, 242u16),
        (City::Eforie, 161u16),
        (City::Fagaras, 176u16),
        (City::Giurgiu, 77u16),
        (City::Hirsova, 151u16),
        (City::Iasi, 226u16),
        (City::Lugoj, 244u16),
        (City::Mehadia, 241u16),
        (City::Neamt, 234u16),
        (City::Oradea, 380u16),
        (City::Pitesti, 100u16),
        (City::RimnicuVilcea, 193u16),
        (City::Sibiu, 253u16),
        (City::Timisoara, 329u16),
        (City::Urziceni, 80u16),
        (City::Vaslui, 199u16),
        (City::Zerind, 374u16),
    ]
}

/// Every city is on the list of cities.
proof fn lemma_all_cities_listed()
    ensures
        forall|city: City| romanian_cities().contains(city),
{
    let cities = romanian_cities();
    assert forall|city: City| cities.contains(city) by {
        assert(cities[city.ordinal() as int] == city);
    }
}

/// No road on the map is longer than 211.
proof fn lemma_road_lengths(adj: Seq<(City, Seq<(City, u16)>)>)
    requires
        adj == bidirectional_index(romanian_roads()),
    ensures
        forall|a: City, b: City| (#[trigger] forward_of(adj)(a, b)) matches Some(c) ==> c <= 211,
        forall|a: City, b: City| (#[trigger] backward_of(adj)(a, b)) matches Some(c) ==> c <= 211,
{
    let roads = romanian_roads();
    assert forall|a: City, b: City| (#[trigger] edge_of(adj, a, b)) is Some implies edge_of(
        adj,
        a,
        b,
    ).unwrap() <= 211 by {
        lemma_lower_cost_wins(roads, a, b);
        let c = edge_of(adj, a, b).unwrap();
        let i = choose|i: int|
            0 <= i < roads.len() && super::adjacency::links(#[trigger] roads[i], a, b)
                && roads[i].2 == c;
        assert(roads[i].2 <= 211);
    }
    assert forall|a: City, b: City| (#[trigger] forward_of(adj)(a, b)) is Some implies forward_of(
        adj,
    )(a, b).unwrap() <= 211 by {
        assert(forward_of(adj)(a, b) == edge_of(adj, a, b));
    }
    assert forall|a: City, b: City| (#[trigger] backward_of(adj)(a, b)) is Some implies backward_of(
        adj,
    )(a, b).unwrap() <= 211 by {
        assert(backward_of(adj)(a, b) == edge_of(adj, b, a));
    }
}

/// Builds the road map. Its costs are small enough for every search of this
/// library, from any city to any other.
pub fn generate_romania_roadmap() -> (graph: StateGraph<City, u16>)
    ensures
        graph.node_seq() == romanian_cities(),
        graph.adjacency() == bidirectional_index(romanian_roads()),
        forall|start: City| #[trigger] graph.fits(start, 40),
        forall|end: City| #[trigger] walks_fit(graph.backward(), end, 20),
{
    proof {
        lemma_city_equality();
        lemma_all_cities_listed();
    }
    let cities: Vec<City> = vec![
        City::Oradea,
        City::Zerind,
        City::Arad,
        City::Sibiu,
        City::Fagaras,
        City::Timisoara,
        City::Lugoj,
        City::Mehadia,
        City::Drobeta,
        City::Craiova,
        City::RimnicuVilcea,
        City::Pitesti,
        City::Bucharest,
        City::Giurgiu,
        City::Urziceni,
        City::Hirsova,
        City::Eforie,
        City::Vaslui,
        City::Iasi,
        City::Neamt,
    ];
    let roads: Vec<(City, City, u16)> = vec![
        (City::Oradea, City::Zerind, 71),
        (City::Zerind, City::Arad, 75),
        (City::Arad, City::Timisoara, 118),
        (City::Timisoara, City::Lugoj, 111),
        (City::Lugoj, City::Mehadia, 70),
        (City::Mehadia, City::Drobeta, 75),
        (City::Drobeta, City::Craiova, 120),
        (City::Craiova, City::RimnicuVilcea, 146),
        (City::RimnicuVilcea, City::Sibiu, 80),
        (City::Sibiu, City::Arad, 140),
        (City::Sibiu, City::Oradea, 151),
        (City::Sibiu, City::Fagaras, 99),
        (City::Craiova, City::Pitesti, 138),
        (City::Pitesti, City::RimnicuVilcea, 97),
        (City::Fagaras, City::Bucharest, 211),
        (City::Pitesti, City::Bucharest, 101),
        (City::Giurgiu, City::Bucharest, 90),
        (City::Urziceni, City::Bucharest, 85),
        (City::Urziceni, City::Hirsova, 98),
        (City::Eforie, City::Hirsova, 86),
        (City::Urziceni, City::Vaslui, 142),
        (City::Iasi, City::Vaslui, 92),
        (City::Iasi, City::Neamt, 87),
    ];
    assert(cities@ =~= romanian_cities());
    assert(roads@ =~= romanian_roads());
    let edges = StateGraphEdges::from_bidirectional(roads.as_slice());
    let built = StateGraph::new(cities, edges);
    let graph = built.unwrap();
    proof {
        lemma_road_lengths(graph.adjacency());
        assert forall|start: City| #[trigger] graph.fits(start, 40) by {
            lemma_bounded_walks_fit(graph.forward(), start, 40, 211);
        }
        assert forall|end: City| #[trigger] walks_fit(graph.backward(), end, 20) by {
            lemma_bounded_walks_fit(graph.backward(), end, 20, 211);
        }
    }
    graph
}

/// Builds the table of straight-line distances to Bucharest, a city in each
/// entry with its distance.
pub fn generate_romania_straigh_line_distance_to_bucharest() -> (table: Vec<(City, u16)>)
    ensures
        table@ == straight_line_distances(),
{
    let table: Vec<(City, u16)> = vec![
        (City::Arad, 366),
        (City::Bucharest, 0),
        (City::Craiova, 160),
        (City::Drobeta, 242),
        (City::Eforie, 161),
        (City::Fagaras, 176),
        (City::Giurgiu, 77),
        (City::Hirsova, 151),
        (City::Iasi, 226),
        (City::Lugoj, 244),
        (City::Mehadia, 241),
        (City::Neamt, 234),
        (City::Oradea, 380),
        (City::Pitesti, 100),
        (City::RimnicuVilcea, 193),
        (City::Sibiu, 253),
        (City::Timisoara, 329),
        (City::Urziceni, 80),
        (City::Vaslui, 199),
        (City::Zerind, 374),
    ];
    assert(table@ =~= straight_line_distances());
    table
}

} // verus!
