use std::collections::{HashMap, HashSet};

use rustgql::graph::Graph;
use rustgql::pattern::{new_pattern, PatternGraph};
use rustgql::vec_graph::VecGraph;
use rustgql::vf_algorithms::{SubgraphAlgorithm, VfState};

#[derive(Debug, Clone, Copy)]
enum MovieType {
    Movie,
    Tv,
    Video,
}

#[derive(Debug, Clone, Copy)]
enum ActorType {
    Actor,
}

#[derive(Debug)]
struct Movie {
    title: String,
    rating: f64,
    year: i32,
    type_of: MovieType,
}

#[derive(Debug)]
struct MoviePerson {
    name: String,
    type_of: ActorType,
}

#[derive(Debug)]
enum MovieNode {
    Movie(Movie),
    Person(MoviePerson),
}

#[derive(Debug, Clone, Copy)]
enum Relation {
    Knows,
    PlaysIn,
    Successor,
}

use Relation::{Knows, PlaysIn, Successor};

type NodeCond = Box<dyn Fn(&MovieNode) -> bool>;
type EdgeCond = Box<dyn Fn(&Relation) -> bool>;
type Pattern = PatternGraph<NodeCond, EdgeCond>;
type Base = VecGraph<MovieNode, Relation>;

fn pattern() -> Pattern {
    new_pattern::<MovieNode, Relation, NodeCond, EdgeCond>()
}

fn node(p: &mut Pattern, c: NodeCond) -> usize {
    p.add_node::<MovieNode, Relation>(c)
}

fn hidden_node(p: &mut Pattern, c: NodeCond) -> usize {
    p.add_hidden_node::<MovieNode, Relation>(c)
}

fn edge(p: &mut Pattern, a: usize, b: usize, c: EdgeCond) -> usize {
    p.add_edge::<MovieNode, Relation>(a, b, c)
}

fn hidden_edge(p: &mut Pattern, a: usize, b: usize, c: EdgeCond) -> usize {
    p.add_hidden_edge::<MovieNode, Relation>(a, b, c)
}

fn is_person(node: &MovieNode) -> bool {
    matches!(node, MovieNode::Person(_))
}

fn person() -> NodeCond {
    Box::new(is_person)
}

fn movie() -> NodeCond {
    Box::new(|n: &MovieNode| matches!(n, MovieNode::Movie(_)))
}

fn actor(name: &'static str) -> NodeCond {
    Box::new(move |n: &MovieNode| check_for_actor(n, name))
}

fn titled(title: &'static str, year: i32) -> NodeCond {
    Box::new(move |n: &MovieNode| check_movie(n, title, year))
}

fn knows() -> EdgeCond {
    Box::new(|r: &Relation| matches!(r, Knows))
}

fn plays_in() -> EdgeCond {
    Box::new(|r: &Relation| matches!(r, PlaysIn))
}

fn successor() -> EdgeCond {
    Box::new(|r: &Relation| matches!(r, Successor))
}

fn check_for_actor(x: &MovieNode, given_name: &str) -> bool {
    match x {
        MovieNode::Person(y) => y.name.eq(given_name),
        _ => false,
    }
}

fn check_movie(element: &MovieNode, title1: &str, year1: i32) -> bool {
    match element {
        MovieNode::Movie(Movie { title, year, .. }) => title.eq(title1) && year == &year1,
        _ => false,
    }
}

fn add_person(g: &mut Base, names: &mut HashMap<&'static str, usize>, name: &'static str) {
    let n = g.push_node(MovieNode::Person(MoviePerson {
        name: name.to_string(),
        type_of: ActorType::Actor,
    }));
    names.insert(name, n);
}

fn add_media(
    g: &mut Base,
    names: &mut HashMap<&'static str, usize>,
    name: &'static str,
    rating: f64,
    year: i32,
    type_of: MovieType,
) {
    let n = g.push_node(MovieNode::Movie(Movie { title: name.to_string(), rating, year, type_of }));
    names.insert(name, n);
}

fn connect(g: &mut Base, map: &HashMap<&'static str, usize>, from: &str, e: Relation, to: &str) {
    g.push_edge(map[from], map[to], e);
}

/// Five actors and six media, without edges.
fn node_graph() -> (Base, HashMap<&'static str, usize>) {
    let mut graph = VecGraph::new_directed();
    let mut names = HashMap::new();
    add_person(&mut graph, &mut names, "stefan");
    add_person(&mut graph, &mut names, "yves");
    add_person(&mut graph, &mut names, "fabian");
    add_person(&mut graph, &mut names, "tobias");
    add_person(&mut graph, &mut names, "benedikt");
    add_media(&mut graph, &mut names, "Jurassic Park", 10.0, 1990, MovieType::Movie);
    add_media(&mut graph, &mut names, "Star Wars Holiday Special", -10.0, 1978, MovieType::Tv);
    add_media(&mut graph, &mut names, "Attack of the Killer Macros", 6.9, 2022, MovieType::Video);
    add_media(&mut graph, &mut names, "Let's talk about Fight Club", 4.2, 2018, MovieType::Video);
    add_media(
        &mut graph,
        &mut names,
        "Star Wars: Rise of the Bechdel Test",
        2.5,
        2015,
        MovieType::Video,
    );
    add_media(&mut graph, &mut names, "Sunday Uke Group", 10., 2018, MovieType::Tv);
    (graph, names)
}

/// The node graph with its plays-in, knows and successor relations.
fn full_graph() -> (Base, HashMap<&'static str, usize>) {
    let (mut graph, nodes) = node_graph();
    connect(&mut graph, &nodes, "stefan", PlaysIn, "Jurassic Park");
    connect(&mut graph, &nodes, "stefan", PlaysIn, "Star Wars Holiday Special");
    connect(&mut graph, &nodes, "stefan", PlaysIn, "Star Wars: Rise of the Bechdel Test");
    connect(&mut graph, &nodes, "yves", PlaysIn, "Jurassic Park");
    connect(&mut graph, &nodes, "yves", PlaysIn, "Star Wars Holiday Special");
    connect(&mut graph, &nodes, "yves", PlaysIn, "Star Wars: Rise of the Bechdel Test");
    connect(&mut graph, &nodes, "fabian", PlaysIn, "Jurassic Park");
    connect(&mut graph, &nodes, "fabian", PlaysIn, "Star Wars Holiday Special");
    connect(&mut graph, &nodes, "fabian", PlaysIn, "Star Wars: Rise of the Bechdel Test");
    connect(&mut graph, &nodes, "fabian", PlaysIn, "Sunday Uke Group");

    connect(&mut graph, &nodes, "stefan", Knows, "stefan");
    connect(&mut graph, &nodes, "stefan", Knows, "yves");
    connect(&mut graph, &nodes, "yves", Knows, "yves");
    connect(&mut graph, &nodes, "yves", Knows, "stefan");
    connect(&mut graph, &nodes, "yves", Knows, "fabian");
    connect(&mut graph, &nodes, "fabian", Knows, "fabian");
    connect(&mut graph, &nodes, "fabian", Knows, "benedikt");
    connect(&mut graph, &nodes, "benedikt", Knows, "benedikt");
    connect(&mut graph, &nodes, "benedikt", Knows, "tobias");
    connect(&mut graph, &nodes, "tobias", Knows, "tobias");
    connect(&mut graph, &nodes, "tobias", Knows, "fabian");

    connect(&mut graph, &nodes, "Jurassic Park", Successor, "Star Wars Holiday Special");
    connect(
        &mut graph,
        &nodes,
        "Star Wars Holiday Special",
        Successor,
        "Star Wars: Rise of the Bechdel Test",
    );
    connect(&mut graph, &nodes, "Sunday Uke Group", Successor, "Star Wars: Rise of the Bechdel Test");
    (graph, nodes)
}

#[test]
fn match_person_nodes_only() {
    let mut pattern_graph = pattern();
    let person_index = node(&mut pattern_graph, person());

    let base_graph = node_graph().0;
    let results = VfState::eval(&pattern_graph, &base_graph);

    let names: HashSet<&str> = results
        .iter()
        .map(|r| *r.node_weight(person_index))
        .map(|m| match m {
            MovieNode::Person(MoviePerson { name, type_of: _ }) => name.as_str(),
            _ => "",
        })
        .filter(|s| !s.is_empty())
        .collect();

    assert!(names.contains("stefan"));
    assert!(names.contains("yves"));
    assert!(names.contains("fabian"));
    assert!(names.contains("tobias"));
    assert!(names.contains("benedikt"));
    assert_eq!(5, names.len());
}

#[test]
fn match_two_node_pairs() {
    let mut pattern_graph = pattern();
    node(&mut pattern_graph, movie());
    node(&mut pattern_graph, person());
    let base_graph = node_graph().0;

    let results = VfState::eval(&pattern_graph, &base_graph);
    assert_eq!(6 * 5, results.len());
}

#[test]
fn match_wrong_matches_only() {
    let base_graph = node_graph().0;
    let mut two_pattern = pattern();
    node(&mut two_pattern, movie());
    node(
        &mut two_pattern,
        Box::new(|n: &MovieNode| matches!(n, MovieNode::Movie(Movie { year: 32, .. }))),
    );

    let results = VfState::eval(&two_pattern, &base_graph);
    assert_eq!(0, results.len());
}

#[test]
fn optimization_test() {
    let data_graph = full_graph().0;

    let mut pattern_graph = pattern();
    let p1 = node(&mut pattern_graph, person());
    let p2 = node(&mut pattern_graph, person());
    let p3 = node(&mut pattern_graph, person());
    edge(&mut pattern_graph, p1, p2, knows());
    edge(&mut pattern_graph, p2, p3, knows());
    edge(&mut pattern_graph, p3, p1, knows());
    edge(&mut pattern_graph, p1, p1, knows());
    edge(&mut pattern_graph, p2, p2, knows());
    edge(&mut pattern_graph, p3, p3, knows());

    let results = VfState::eval(&pattern_graph, &data_graph);

    assert_eq!(3, results.len());
    for matched_graph in results.iter() {
        assert_eq!(3, matched_graph.count_nodes());
        assert_eq!(6, matched_graph.count_edges());
        for p in matched_graph.node_weights() {
            assert!(matches!(p, MovieNode::Person(_)));
        }
        for e in matched_graph.edge_weights() {
            assert!(matches!(e, Knows));
        }
    }
}

#[test]
fn cycle_in_knows_match() {
    let data_graph = full_graph().0;

    let mut pattern_graph = pattern();
    let p1 = node(&mut pattern_graph, person());
    let p2 = node(&mut pattern_graph, person());
    let p3 = node(&mut pattern_graph, person());
    edge(&mut pattern_graph, p1, p2, knows());
    edge(&mut pattern_graph, p2, p3, knows());
    edge(&mut pattern_graph, p3, p1, knows());

    let results = VfState::eval(&pattern_graph, &data_graph);

    assert_eq!(3, results.len());
    for matched_graph in results.iter() {
        assert_eq!(3, matched_graph.count_nodes());
        assert_eq!(3, matched_graph.count_edges());
        assert!(matches!(matched_graph.node_weight(p1), MovieNode::Person(_)));
        assert!(matches!(matched_graph.node_weight(p2), MovieNode::Person(_)));
        assert!(matches!(matched_graph.node_weight(p3), MovieNode::Person(_)));
        for e in matched_graph.edge_weights() {
            assert!(matches!(e, Knows));
        }
    }
}

#[test]
fn sequence_optimization() {
    let data_graph = full_graph().0;

    let mut pattern_graph = pattern();
    let p0 = node(&mut pattern_graph, person());
    let p1 = node(&mut pattern_graph, person());
    let p2 = node(&mut pattern_graph, person());
    let p3 = node(&mut pattern_graph, person());
    let p4 = node(&mut pattern_graph, person());
    let e0 = edge(&mut pattern_graph, p0, p1, knows());
    let e1 = edge(&mut pattern_graph, p1, p2, knows());
    let e2 = edge(&mut pattern_graph, p2, p3, knows());
    let e3 = edge(&mut pattern_graph, p3, p4, knows());

    let query_results = VfState::eval(&pattern_graph, &data_graph);
    assert_eq!(1, query_results.len());

    let res_graph = &query_results[0];
    assert_eq!(5, res_graph.count_nodes());
    assert_eq!(4, res_graph.count_edges());
    assert!(check_for_actor(res_graph.node_weight(p0), "stefan"));
    assert!(matches!(res_graph.node_weight(p1), MovieNode::Person(_)));
    assert!(matches!(res_graph.node_weight(p2), MovieNode::Person(_)));
    assert!(matches!(res_graph.node_weight(p3), MovieNode::Person(_)));
    assert!(matches!(res_graph.node_weight(p4), MovieNode::Person(_)));

    assert!(res_graph.adjacent_nodes(e0) == (p0, p1));
    assert!(res_graph.adjacent_nodes(e1) == (p1, p2));
    assert!(res_graph.adjacent_nodes(e2) == (p2, p3));
    assert!(res_graph.adjacent_nodes(e3) == (p3, p4));
}

#[test]
fn reflexive_optimization2() {
    let data_graph = full_graph().0;

    let mut pattern_graph = pattern();
    let p0 = node(&mut pattern_graph, person());
    let p1 = node(&mut pattern_graph, person());
    let p2 = node(&mut pattern_graph, person());
    let p3 = node(&mut pattern_graph, person());
    let e0 = edge(&mut pattern_graph, p0, p1, knows());
    let e1 = edge(&mut pattern_graph, p1, p2, knows());
    let e2 = edge(&mut pattern_graph, p2, p3, knows());
    let e3 = edge(&mut pattern_graph, p0, p0, knows());
    let e4 = edge(&mut pattern_graph, p3, p3, knows());

    let query_results = VfState::eval(&pattern_graph, &data_graph);
    assert_eq!(2, query_results.len());

    for res_graph in query_results.iter() {
        assert_eq!(4, res_graph.count_nodes());
        assert_eq!(5, res_graph.count_edges());
        assert!(
            check_for_actor(res_graph.node_weight(p0), "stefan")
                || check_for_actor(res_graph.node_weight(p0), "yves")
        );
        assert!(matches!(res_graph.node_weight(p1), MovieNode::Person(_)));
        assert!(matches!(res_graph.node_weight(p2), MovieNode::Person(_)));
        assert!(matches!(res_graph.node_weight(p3), MovieNode::Person(_)));

        assert!(res_graph.adjacent_nodes(e0) == (p0, p1));
        assert!(res_graph.adjacent_nodes(e1) == (p1, p2));
        assert!(res_graph.adjacent_nodes(e2) == (p2, p3));
        assert!(res_graph.adjacent_nodes(e3) == (p0, p0));
        assert!(matches!(res_graph.edge_weight(e3), Knows));
        assert!(res_graph.adjacent_nodes(e4) == (p3, p3));
        assert!(matches!(res_graph.edge_weight(e4), Knows));
    }
}

#[test]
fn reflexive_optimization() {
    let data_graph = full_graph().0;

    let mut pattern_graph = pattern();
    let p0 = node(&mut pattern_graph, person());
    let p1 = node(&mut pattern_graph, person());
    let p2 = node(&mut pattern_graph, person());
    let p3 = node(&mut pattern_graph, person());
    let e0 = edge(&mut pattern_graph, p0, p1, knows());
    let e1 = edge(&mut pattern_graph, p1, p2, knows());
    let e2 = edge(&mut pattern_graph, p2, p3, knows());
    let e3 = edge(&mut pattern_graph, p0, p0, knows());
    let e4 = edge(&mut pattern_graph, p3, p3, knows());
    let e5 = edge(&mut pattern_graph, p1, p1, knows());
    let e6 = edge(&mut pattern_graph, p2, p2, knows());

    let query_results = VfState::eval(&pattern_graph, &data_graph);
    assert_eq!(2, query_results.len());

    for res_graph in query_results.iter() {
        assert_eq!(4, res_graph.count_nodes());
        assert_eq!(7, res_graph.count_edges());
        assert!(
            check_for_actor(res_graph.node_weight(p0), "stefan")
                || check_for_actor(res_graph.node_weight(p0), "yves")
        );
        assert!(matches!(res_graph.node_weight(p1), MovieNode::Person(_)));
        assert!(matches!(res_graph.node_weight(p2), MovieNode::Person(_)));
        assert!(matches!(res_graph.node_weight(p3), MovieNode::Person(_)));

        assert!(res_graph.adjacent_nodes(e0) == (p0, p1));
        assert!(res_graph.adjacent_nodes(e1) == (p1, p2));
        assert!(res_graph.adjacent_nodes(e2) == (p2, p3));
        assert!(res_graph.adjacent_nodes(e3) == (p0, p0));
        assert!(matches!(res_graph.edge_weight(e3), Knows));
        assert!(res_graph.adjacent_nodes(e4) == (p3, p3));
        assert!(matches!(res_graph.edge_weight(e4), Knows));
        assert!(res_graph.adjacent_nodes(e5) == (p1, p1));
        assert!(matches!(res_graph.edge_weight(e5), Knows));
        assert!(res_graph.adjacent_nodes(e6) == (p2, p2));
        assert!(matches!(res_graph.edge_weight(e6), Knows));
    }
}

#[test]
fn delete_test() {
    let base_graph = full_graph().0;
    let mut pattern_graph = pattern();

    let fab = node(&mut pattern_graph, actor("fabian"));
    let m1 = node(&mut pattern_graph, movie());
    let m2 = node(&mut pattern_graph, movie());
    let m3 = node(&mut pattern_graph, movie());
    edge(&mut pattern_graph, fab, m1, plays_in());
    edge(&mut pattern_graph, fab, m2, plays_in());
    edge(&mut pattern_graph, fab, m3, plays_in());

    let results = VfState::eval(&pattern_graph, &base_graph);
    assert_eq!(24, results.len());

    for g in results.iter() {
        assert_eq!(4, g.count_nodes());
        assert!(check_for_actor(g.node_weight(fab), "fabian"));
        assert!(matches!(g.node_weight(m1), MovieNode::Movie(_)));
        assert!(matches!(g.node_weight(m2), MovieNode::Movie(_)));
        assert!(matches!(g.node_weight(m3), MovieNode::Movie(_)));

        assert_eq!(3, g.count_edges());
        for weight in g.edge_weights() {
            assert!(matches!(weight, PlaysIn));
        }
    }
}

#[test]
fn three_to_three() {
    let mut pattern_graph = pattern();
    let s = node(&mut pattern_graph, actor("stefan"));
    let y = node(&mut pattern_graph, actor("yves"));
    let f = node(&mut pattern_graph, actor("fabian"));
    let m1 = node(&mut pattern_graph, movie());
    let m2 = node(&mut pattern_graph, movie());
    let m3 = node(&mut pattern_graph, movie());
    for a in [s, y, f] {
        for m in [m1, m2, m3] {
            edge(&mut pattern_graph, a, m, plays_in());
        }
    }

    let base_graph = full_graph().0;
    let results = VfState::eval(&pattern_graph, &base_graph);
    assert_eq!(6, results.len());

    for graph in results.iter() {
        assert_eq!(6, graph.count_nodes());
        assert!(check_for_actor(graph.node_weight(s), "stefan"));
        assert!(check_for_actor(graph.node_weight(y), "yves"));
        assert!(check_for_actor(graph.node_weight(f), "fabian"));
        assert!(matches!(graph.node_weight(m1), MovieNode::Movie(_)));
        assert!(matches!(graph.node_weight(m2), MovieNode::Movie(_)));
        assert!(matches!(graph.node_weight(m3), MovieNode::Movie(_)));
        assert_eq!(9, graph.count_edges());
        assert!(graph.edge_weights().iter().all(|e| matches!(e, PlaysIn)));
    }
}

#[test]
fn three_to_two() {
    let mut pattern_graph = pattern();
    let s = node(&mut pattern_graph, actor("stefan"));
    let y = node(&mut pattern_graph, actor("yves"));
    let f = node(&mut pattern_graph, actor("fabian"));
    let m1 = node(&mut pattern_graph, movie());
    let m2 = node(&mut pattern_graph, movie());
    for a in [s, y, f] {
        for m in [m1, m2] {
            edge(&mut pattern_graph, a, m, plays_in());
        }
    }

    let base_graph = full_graph().0;
    let results = VfState::eval(&pattern_graph, &base_graph);
    assert_eq!(6, results.len());

    for graph in results.iter() {
        assert_eq!(5, graph.count_nodes());
        assert!(check_for_actor(graph.node_weight(s), "stefan"));
        assert!(check_for_actor(graph.node_weight(y), "yves"));
        assert!(check_for_actor(graph.node_weight(f), "fabian"));
        assert!(matches!(graph.node_weight(m1), MovieNode::Movie(_)));
        assert!(matches!(graph.node_weight(m2), MovieNode::Movie(_)));
        assert_eq!(6, graph.count_edges());
        assert!(graph.edge_weights().iter().all(|e| matches!(e, PlaysIn)));
    }
}

#[test]
fn two_to_two() {
    let mut pattern_graph = pattern();
    let s = node(&mut pattern_graph, actor("stefan"));
    let y = node(&mut pattern_graph, actor("yves"));
    let m1 = node(&mut pattern_graph, movie());
    let m2 = node(&mut pattern_graph, movie());
    for a in [s, y] {
        for m in [m1, m2] {
            edge(&mut pattern_graph, a, m, plays_in());
        }
    }

    let base_graph = full_graph().0;
    let results = VfState::eval(&pattern_graph, &base_graph);
    assert_eq!(6, results.len());

    for graph in results.iter() {
        assert_eq!(4, graph.count_nodes());
        assert!(check_for_actor(graph.node_weight(s), "stefan"));
        assert!(check_for_actor(graph.node_weight(y), "yves"));
        assert!(matches!(graph.node_weight(m1), MovieNode::Movie(_)));
        assert!(matches!(graph.node_weight(m2), MovieNode::Movie(_)));
        assert_eq!(4, graph.count_edges());
        assert!(graph.edge_weights().iter().all(|e| matches!(e, PlaysIn)));
    }
}

#[test]
fn attributes_with_parameters() {
    let mut pattern_graph = pattern();
    let s = node(&mut pattern_graph, actor("stefan"));
    let m1 = node(&mut pattern_graph, titled("Star Wars Holiday Special", 1978));
    let m2 = node(&mut pattern_graph, titled("Star Wars: Rise of the Bechdel Test", 2015));
    edge(&mut pattern_graph, s, m1, plays_in());
    edge(&mut pattern_graph, s, m2, plays_in());

    let base_graph = full_graph().0;
    let results = VfState::eval(&pattern_graph, &base_graph);
    assert_eq!(1, results.len());

    for graph in results.iter() {
        assert_eq!(3, graph.count_nodes());
        assert!(check_for_actor(graph.node_weight(s), "stefan"));
        assert!(matches!(graph.node_weight(m1), MovieNode::Movie(_)));
        assert!(matches!(graph.node_weight(m2), MovieNode::Movie(_)));
        assert_eq!(2, graph.count_edges());
        assert!(graph.edge_weights().iter().all(|e| matches!(e, PlaysIn)));
    }
}

#[test]
fn create() {
    let mut pattern_graph = pattern();
    let p = node(&mut pattern_graph, person());
    let m = node(&mut pattern_graph, movie());
    let pi = edge(&mut pattern_graph, p, m, plays_in());

    let base_graph = full_graph().0;
    let query_results = VfState::eval(&pattern_graph, &base_graph);
    assert_eq!(10, query_results.len());

    for graph in query_results.iter() {
        assert_eq!(1, graph.count_edges());
        assert_eq!(2, graph.count_nodes());
        assert_eq!((p, m), graph.adjacent_nodes(pi));
        assert!(matches!(graph.node_weight(p), MovieNode::Person(_)));
        assert!(matches!(graph.node_weight(m), MovieNode::Movie(_)));
        assert!(matches!(graph.edge_weight(pi), PlaysIn));
    }
}

#[test]
fn require_delete() {
    let mut pattern = pattern();
    let p = node(&mut pattern, actor("stefan"));
    let m1 = node(&mut pattern, movie());
    let m2 = hidden_node(&mut pattern, movie());
    hidden_edge(&mut pattern, p, m2, plays_in());
    let e = edge(&mut pattern, p, m1, plays_in());

    let base_graph = full_graph().0;
    let results = VfState::eval(&pattern, &base_graph);
    assert_eq!(3, results.len());

    for res in results.iter() {
        assert_eq!(2, res.count_nodes());
        assert_eq!(1, res.count_edges());
        assert!(check_for_actor(res.node_weight(p), "stefan"));
        assert!(matches!(res.node_weight(m1), MovieNode::Movie(_)));
        assert!(matches!(res.edge_weight(e), PlaysIn));
    }
}

#[test]
fn require() {
    let mut pattern_graph = pattern();
    let s = node(&mut pattern_graph, actor("stefan"));
    let y = node(&mut pattern_graph, actor("yves"));
    let m1 = hidden_node(&mut pattern_graph, movie());
    let m2 = hidden_node(&mut pattern_graph, movie());
    hidden_edge(&mut pattern_graph, s, m1, plays_in());
    hidden_edge(&mut pattern_graph, s, m2, plays_in());
    hidden_edge(&mut pattern_graph, y, m1, plays_in());
    hidden_edge(&mut pattern_graph, y, m2, plays_in());

    let base_graph = full_graph().0;
    let results = VfState::eval(&pattern_graph, &base_graph);
    assert_eq!(1, results.len());

    for graph in results.iter() {
        assert_eq!(2, graph.count_nodes());
        assert!(check_for_actor(graph.node_weight(s), "stefan"));
        assert!(check_for_actor(graph.node_weight(y), "yves"));
    }
}

#[test]
fn all_stereotypes() {
    let mut pattern_graph = pattern();
    let p1 = node(&mut pattern_graph, actor("fabian"));
    let p2 = hidden_node(&mut pattern_graph, person());
    let m1 = node(&mut pattern_graph, movie());
    let m2 = node(&mut pattern_graph, movie());
    let pm1 = edge(&mut pattern_graph, p1, m1, plays_in());
    let pm2 = edge(&mut pattern_graph, p1, m2, plays_in());
    hidden_edge(&mut pattern_graph, p2, m2, plays_in());
    let su = edge(&mut pattern_graph, m1, m2, successor());

    let base_graph = full_graph().0;
    let results = VfState::eval(&pattern_graph, &base_graph);
    assert_eq!(3, results.len());

    for res in results.iter() {
        assert_eq!(3, res.count_edges());
        assert_eq!(3, res.count_nodes());
        assert!(check_for_actor(res.node_weight(p1), "fabian"));
        assert!(matches!(res.node_weight(m1), MovieNode::Movie(_)));
        assert!(matches!(res.node_weight(m2), MovieNode::Movie(_)));
        assert!(matches!(res.edge_weight(pm1), PlaysIn));
        assert!(matches!(res.edge_weight(pm2), PlaysIn));
        assert!(matches!(res.edge_weight(su), Successor));
    }
}

#[test]
fn bk_two_to_two() {
    let mut pattern_graph = pattern();
    let s = node(&mut pattern_graph, actor("stefan"));
    let y = node(&mut pattern_graph, actor("yves"));
    let m1 = hidden_node(&mut pattern_graph, movie());
    let m2 = hidden_node(&mut pattern_graph, movie());
    hidden_edge(&mut pattern_graph, s, m1, plays_in());
    hidden_edge(&mut pattern_graph, s, m2, plays_in());
    hidden_edge(&mut pattern_graph, y, m1, plays_in());
    hidden_edge(&mut pattern_graph, y, m2, plays_in());

    let base_graph = full_graph().0;
    let results = VfState::eval(&pattern_graph, &base_graph);
    assert_eq!(1, results.len());

    for graph in results.iter() {
        assert_eq!(2, graph.count_nodes());
        assert!(check_for_actor(graph.node_weight(s), "stefan"));
        assert!(check_for_actor(graph.node_weight(y), "yves"));
        assert_eq!(0, graph.edges().len())
    }
}

#[test]
fn bk_two_to_three() {
    let mut pattern_graph = pattern();
    let s = node(&mut pattern_graph, actor("stefan"));
    let y = node(&mut pattern_graph, actor("yves"));
    let m1 = hidden_node(&mut pattern_graph, movie());
    let m2 = hidden_node(&mut pattern_graph, movie());
    let m3 = hidden_node(&mut pattern_graph, movie());
    for a in [s, y] {
        for m in [m1, m2, m3] {
            hidden_edge(&mut pattern_graph, a, m, plays_in());
        }
    }

    let base_graph = full_graph().0;
    let results = VfState::eval(&pattern_graph, &base_graph);
    assert_eq!(1, results.len());

    for graph in results.iter() {
        assert_eq!(2, graph.count_nodes());
        assert!(check_for_actor(graph.node_weight(s), "stefan"));
        assert!(check_for_actor(graph.node_weight(y), "yves"));
        assert_eq!(0, graph.edges().len())
    }
}

#[test]
fn create_with_attributes() {
    let mut pattern_graph = pattern();
    let s = hidden_node(&mut pattern_graph, actor("stefan"));
    let y = node(&mut pattern_graph, actor("yves"));
    let j = hidden_node(&mut pattern_graph, titled("Jurassic Park", 1990));
    hidden_edge(&mut pattern_graph, y, s, knows());
    hidden_edge(&mut pattern_graph, y, j, knows());

    let base_graph = full_graph().0;
    assert_eq!(0, VfState::eval(&pattern_graph, &base_graph).len());
}

#[test]
fn req_test() {
    let mut pattern_graph = pattern();
    let f = node(&mut pattern_graph, actor("fabian"));
    let j = node(&mut pattern_graph, movie());
    let m1 = hidden_node(&mut pattern_graph, movie());
    let m2 = hidden_node(&mut pattern_graph, movie());
    let m3 = hidden_node(&mut pattern_graph, movie());

    let pi = edge(&mut pattern_graph, f, j, plays_in());
    hidden_edge(&mut pattern_graph, f, m1, plays_in());
    hidden_edge(&mut pattern_graph, f, m2, plays_in());
    hidden_edge(&mut pattern_graph, f, m3, plays_in());
    hidden_edge(&mut pattern_graph, m1, m2, successor());
    hidden_edge(&mut pattern_graph, m3, m2, successor());

    let base_graph = full_graph().0;
    let results = VfState::eval(&pattern_graph, &base_graph);
    assert_eq!(1, results.len());

    let (_, movie) = results[0].adjacent_nodes(pi);
    assert_eq!(movie, j);
    assert!(check_movie(results[0].node_weight(movie), "Jurassic Park", 1990));
}

#[test]
fn seq_create() {
    let mut pattern_graph = pattern();
    let p1 = node(&mut pattern_graph, person());
    let p2 = node(&mut pattern_graph, person());
    let m = node(&mut pattern_graph, movie());
    edge(&mut pattern_graph, p1, p2, knows());
    hidden_edge(&mut pattern_graph, p2, m, plays_in());

    let base_graph = full_graph().0;
    let results = VfState::eval(&pattern_graph, &base_graph);
    assert_eq!(14, results.len());

    for res in results.iter() {
        assert_eq!(1, res.count_edges());
        assert_eq!(0, res.adjacent_edges(m).len());
    }
}

#[test]
fn all_stereotypes_2() {
    let mut pattern_graph = pattern();
    let p1 = node(&mut pattern_graph, person());
    let p2 = node(&mut pattern_graph, person());
    let p3 = node(&mut pattern_graph, person());
    let m1 = hidden_node(&mut pattern_graph, movie());
    let m2 = hidden_node(&mut pattern_graph, movie());
    edge(&mut pattern_graph, p1, p2, knows());
    edge(&mut pattern_graph, p1, p3, knows());
    hidden_edge(&mut pattern_graph, p2, m1, plays_in());
    hidden_edge(&mut pattern_graph, p3, m2, plays_in());

    let base_graph = full_graph().0;
    let results = VfState::eval(&pattern_graph, &base_graph);
    assert_eq!(2, results.len())
}

#[test]
fn results_differ_on_visible_nodes() {
    let mut pattern_graph = pattern();
    let a = node(&mut pattern_graph, person());
    let b = hidden_node(&mut pattern_graph, movie());
    hidden_edge(&mut pattern_graph, a, b, plays_in());

    let base_graph = full_graph().0;
    let results = VfState::eval(&pattern_graph, &base_graph);
    // Stefan, Yves and Fabian play in some movie; each comes once.
    assert_eq!(3, results.len());
    let mut seen = Vec::new();
    for res in results.iter() {
        let name = match *res.node_weight(a) {
            MovieNode::Person(p) => p.name.clone(),
            MovieNode::Movie(m) => m.title.clone(),
        };
        assert!(!seen.contains(&name));
        seen.push(name);
    }
}

#[test]
fn hidden_only_pattern_yields_empty_views() {
    let mut pattern_graph = pattern();
    let a = hidden_node(&mut pattern_graph, actor("fabian"));
    let b = hidden_node(&mut pattern_graph, movie());
    hidden_edge(&mut pattern_graph, a, b, plays_in());

    let base_graph = full_graph().0;
    let results = VfState::eval(&pattern_graph, &base_graph);
    assert!(!results.is_empty());
    for res in results.iter() {
        assert_eq!(0, res.count_nodes());
        assert_eq!(0, res.count_edges());
    }
}
