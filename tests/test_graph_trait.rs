use rustgql::graph::{incoming_nodes, outgoing_nodes, Graph};
use rustgql::vec_graph::VecGraph;

#[derive(Clone, Debug, PartialEq, Eq)]
enum Role {
    Professor { faculty: String },
    Student { matrical_number: u32 },
}

#[derive(Clone, Debug, PartialEq, Eq)]
struct Person {
    name: String,
    age: u32,
    role: Role,
}

#[derive(Clone, Copy, Debug, PartialEq, Eq)]
struct FriendOf {
    since_year: i32,
}

fn new_student(name: &str, age: u32, matrical_number: u32) -> Person {
    Person { name: name.to_string(), age, role: Role::Student { matrical_number } }
}

fn new_professor(name: &str, age: u32, faculty: &str) -> Person {
    Person { name: name.to_string(), age, role: Role::Professor { faculty: faculty.to_string() } }
}

type NodeInfo = Vec<(usize, Person)>;
type EdgeInfo = Vec<(usize, (usize, usize, FriendOf))>;

/// Four persons and five friendships, with the data put into the graph.
fn make_sample_graph() -> (VecGraph<Person, FriendOf>, NodeInfo, EdgeInfo) {
    let mut graph = VecGraph::new_directed();
    let mut node_raw = Vec::new();
    let mut edge_raw = Vec::new();
    let people = vec![
        new_student("tobias", 99, 900000),
        new_student("stefan", 9, 89000),
        new_student("horst", 55, 823340),
        new_professor("bettina", 36, "Faculty of Software Engineering and Programming Langauges"),
    ];
    for p in people {
        let x = p.clone();
        let idx = graph.push_node(p);
        node_raw.push((idx, x));
    }
    let (t, s, h, b) = (0, 1, 2, 3);
    for (from, to, year) in [(t, h, 2020), (h, b, 2010), (b, h, 2010), (s, b, 2018), (b, s, 2018)] {
        let x = FriendOf { since_year: year };
        edge_raw.push((graph.push_edge(from, to, x), (from, to, x)));
    }
    (graph, node_raw, edge_raw)
}

/// Tram stations and their undirected connections (from, to, minutes).
fn make_sample_graph_undirected() -> (VecGraph<&'static str, i32>, Vec<usize>, EdgeRoutes) {
    let mut g = VecGraph::new_undirected();
    let ei = g.push_node("Ehinger Tor");
    let ti = g.push_node("Theater");
    let si = g.push_node("Science Park");
    let ki = g.push_node("Kuhberg Schulzentrum");
    let bi = g.push_node("Boefingen");
    let soi = g.push_node("Soeflingen");
    let mut routes = Vec::new();
    for (f, t, w) in [(ei, ti, 5), (ti, si, 12), (ti, ki, 15), (bi, ei, 17), (ei, soi, 8)] {
        routes.push((g.push_edge(f, t, w), (f, t, w)));
    }
    (g, vec![ei, ti, si, ki, bi, soi], routes)
}

type EdgeRoutes = Vec<(usize, (usize, usize, i32))>;

#[test]
fn query_node_indices() {
    let graph = make_sample_graph().0;
    let node_indices = graph.nodes();
    assert_eq!(node_indices, vec![0, 1, 2, 3]);
}

#[test]
fn query_edge_indices() {
    let graph = make_sample_graph().0;
    let edge_indices = graph.edges();
    assert_eq!(edge_indices, vec![0, 1, 2, 3, 4]);
}

#[test]
fn query_node_properties() {
    let (graph, node_data, edge_data) = make_sample_graph();

    for (index, weight) in node_data.iter() {
        assert!(graph.node_weight(*index) == weight);

        let mut adjacent_edges = graph.adjacent_edges(*index);
        adjacent_edges.sort();
        let mut actual_adjacent_edges: Vec<usize> = edge_data
            .iter()
            .filter(|(_, (a, b, _))| a == index || b == index)
            .map(|(e, _)| *e)
            .collect();
        actual_adjacent_edges.sort();
        assert_eq!(adjacent_edges, actual_adjacent_edges);

        let mut outgoing_edges = graph.outgoing_edges(*index);
        outgoing_edges.sort();
        let mut actual_outgoing_edges: Vec<usize> =
            edge_data.iter().filter(|(_, (a, _, _))| a == index).map(|(e, _)| *e).collect();
        actual_outgoing_edges.sort();
        assert_eq!(outgoing_edges, actual_outgoing_edges);

        let mut incoming_edges = graph.incoming_edges(*index);
        incoming_edges.sort();
        let mut actual_incoming_edges: Vec<usize> =
            edge_data.iter().filter(|(_, (_, a, _))| a == index).map(|(e, _)| *e).collect();
        actual_incoming_edges.sort();
        assert_eq!(incoming_edges, actual_incoming_edges);
    }
}

#[test]
fn query_edge_properties() {
    let (graph, _, edge_data) = make_sample_graph();
    assert!(graph.is_directed());

    for (e_idx, (source_idx, target_idx, e_weight)) in edge_data.iter() {
        assert!(graph.is_directed_edge(*e_idx));
        assert_eq!(graph.adjacent_nodes(*e_idx), (*source_idx, *target_idx));
        assert_eq!(graph.edge_weight(*e_idx), e_weight);
    }
}

#[test]
fn check_undirected_edges() {
    let (graph, stations, routes) = make_sample_graph_undirected();

    assert!(!graph.is_directed());
    assert!(!routes.iter().any(|(edge, _)| graph.is_directed_edge(*edge)));

    for station_idx in stations.iter() {
        let mut actual_routes: Vec<usize> = routes
            .iter()
            .filter(|(_, (f, t, _))| f == station_idx || t == station_idx)
            .map(|(e, _)| *e)
            .collect();
        actual_routes.sort();

        let mut outgoing_edges = graph.outgoing_edges(*station_idx);
        outgoing_edges.sort();
        let mut incoming_edges = graph.incoming_edges(*station_idx);
        incoming_edges.sort();
        let mut adjacent_edges = graph.adjacent_edges(*station_idx);
        adjacent_edges.sort();

        assert_eq!(actual_routes, outgoing_edges);
        assert_eq!(actual_routes, incoming_edges);
        assert_eq!(actual_routes, adjacent_edges);
    }

    for (e_idx, (f, t, _)) in routes.iter() {
        let (start, end) = graph.adjacent_nodes(*e_idx);
        assert!((start == *f && end == *t) || (start == *t && end == *f));
    }
}

#[test]
fn trial_and_error() {
    let (full, _, _) = make_sample_graph();
    // The variant graph misses the last friendship.
    let mut graph = VecGraph::new_directed();
    for n in full.nodes() {
        graph.push_node(full.node_weight(n).clone());
    }
    for e in full.edges().into_iter().take(4) {
        let (a, b) = full.adjacent_nodes(e);
        graph.push_edge(a, b, *full.edge_weight(e));
    }
    assert_eq!(graph.nodes().len(), 4);
    assert_eq!(graph.edges().len(), 4);

    let tobias = graph.nodes()[0];
    assert_eq!(*graph.node_weight(tobias), new_student("tobias", 99, 900000));

    assert_eq!(graph.adjacent_edges(tobias).len(), 1);
    assert_eq!(graph.outgoing_edges(tobias).len(), 1);
    assert_eq!(graph.incoming_edges(tobias).len(), 0);

    let tobi_and_horst = graph.adjacent_edges(tobias)[0];

    let x = FriendOf { since_year: 2020 };
    assert!(graph.is_directed());
    assert!(graph.is_directed_edge(tobi_and_horst));
    assert_eq!(*graph.edge_weight(tobi_and_horst), x);
}

#[test]
fn test_graph_weights() {
    let mut g = VecGraph::new_directed();
    let a = g.push_node(String::from("a"));
    let b = g.push_node(String::from("b"));
    g.push_edge(a, b, 42);

    let x: Vec<String> = g.node_weights().into_iter().cloned().collect();
    assert_eq!(x, vec!["a", "b"]);

    let edge_weights: Vec<&i32> = g.edge_weights();
    assert_eq!(edge_weights, vec![&42]);

    assert!(g.is_directed())
}

#[test]
fn neighbour_nodes_follow_edges() {
    let (graph, _, _) = make_sample_graph();
    // Bettina (3) is followed by Horst (2) and Stefan (1), and preceded by both.
    let mut succ = outgoing_nodes(&graph, 3);
    succ.sort();
    assert_eq!(succ, vec![1, 2]);
    let mut pred = incoming_nodes(&graph, 3);
    pred.sort();
    assert_eq!(pred, vec![1, 2]);
    assert_eq!(outgoing_nodes(&graph, 1), vec![3]);
    assert_eq!(incoming_nodes(&graph, 0), Vec::<usize>::new());
}
