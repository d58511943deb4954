use rustgql::filter_map::FilterMap;
use rustgql::graph::Graph;
use rustgql::vec_graph::VecGraph;

/// 3000 nodes weighted 0..3000 and 2000 undirected edges weighted 0..2000:
/// edge 2i joins nodes 3i and 3i + 1, edge 2i + 1 joins nodes 3i and 3i + 2.
fn make_sample_graph_mass_filter_map() -> VecGraph<u64, u64> {
    let mut graph = VecGraph::new_undirected();
    for i in 0..1000 {
        let u1 = graph.push_node(3 * i);
        let u2 = graph.push_node(3 * i + 1);
        graph.push_edge(u1, u2, 2 * i);
        let u3 = graph.push_node(3 * i + 2);
        graph.push_edge(u1, u3, 2 * i + 1);
    }
    graph
}

#[derive(Clone, Debug, PartialEq, Eq)]
struct Person {
    name: String,
    age: u32,
}

#[derive(Clone, Copy, Debug, PartialEq, Eq)]
struct FriendOf {
    since_year: i32,
}

/// Tobias, Stefan, Horst and Bettina; Tobias knows Horst since 2020, Horst
/// and Bettina know each other since 2010, Stefan knows Bettina since 2018.
fn make_sample_graph_variant() -> VecGraph<Person, FriendOf> {
    let mut graph = VecGraph::new_directed();
    let t = graph.push_node(Person { name: "tobias".to_string(), age: 99 });
    let s = graph.push_node(Person { name: "stefan".to_string(), age: 9 });
    let h = graph.push_node(Person { name: "horst".to_string(), age: 55 });
    let b = graph.push_node(Person { name: "bettina".to_string(), age: 36 });
    graph.push_edge(t, h, FriendOf { since_year: 2020 });
    graph.push_edge(h, b, FriendOf { since_year: 2010 });
    graph.push_edge(b, h, FriendOf { since_year: 2010 });
    graph.push_edge(s, b, FriendOf { since_year: 2018 });
    graph
}

/// Tram stations joined by undirected connections weighted with minutes.
fn make_sample_graph_undirected() -> VecGraph<&'static str, i32> {
    let mut g = VecGraph::new_undirected();
    let ei = g.push_node("Ehinger Tor");
    let ti = g.push_node("Theater");
    let si = g.push_node("Science Park");
    let ki = g.push_node("Kuhberg Schulzentrum");
    let bi = g.push_node("Boefingen");
    let soi = g.push_node("Soeflingen");
    g.push_edge(ei, ti, 5);
    g.push_edge(ti, si, 12);
    g.push_edge(ti, ki, 15);
    g.push_edge(bi, ei, 17);
    g.push_edge(ei, soi, 8);
    g
}

#[test]
fn test_filter_only() {
    let graph = make_sample_graph_mass_filter_map();
    let result = FilterMap::weight_filter(&graph, |n: &u64| n % 3 != 2, |e: &u64| e % 2 != 1);

    let nodes = result.nodes();
    assert_eq!(nodes.len(), 2000);
    assert_eq!(result.count_nodes(), 2000);

    for n in nodes {
        let idx = n;
        assert!(idx % 3 != 2 && idx <= 3000);
        let w = *result.node_weight(n);
        let w_actual = graph.node_weight(n);
        assert_eq!(*w, *w_actual);

        let edges = result.adjacent_edges(n);
        let e_idx = if idx % 3 == 1 { (2 * (idx - 1)) / 3 } else { (2 * idx) / 3 };
        assert_eq!(edges, vec![e_idx]);
    }

    let edges = result.edges();
    assert_eq!(edges.len(), 1000);
    assert_eq!(result.count_edges(), 1000);

    for e in edges {
        let idx = e;
        assert!(idx % 2 != 1 && idx <= 2000);
        assert_eq!(*result.edge_weight(e), graph.edge_weight(e));
        let (n1, n2) = result.adjacent_nodes(e);
        assert_eq!((3 * idx) / 2, n1);
        assert_eq!(((3 * idx) / 2) + 1, n2);
    }
}

#[test]
fn test_weight_node_only() {
    let graph = make_sample_graph_mass_filter_map();
    let result = FilterMap::weight_filter_map(
        &graph,
        |n: &u64| Some(3 * n).filter(|n| n % 3 != 0),
        |e: &u64| Some(2 * e),
    );

    let edge_count = result.edges().len();
    assert_eq!(edge_count, 0);

    for node in result.nodes() {
        let weight = result.node_weight(node);
        let idx = node;
        assert!(idx % 3 != 0 && idx < 3000);
        assert_eq!(3 * weight, idx as u64);

        let adj_edge_count = result.adjacent_edges(node).len();
        assert_eq!(adj_edge_count, 0);
    }
}

#[test]
fn test_edge_node_projection() {
    let graph = make_sample_graph_variant();
    let result = FilterMap::weight_filter_map(
        &graph,
        |p: &Person| Some(&p.name),
        |e: &FriendOf| Some(e.since_year).filter(|year| *year > 2011),
    );

    let mut names: Vec<_> = result.node_weights().into_iter().map(|n| n.as_str()).collect();
    names.sort();
    let actual_names = vec!["bettina", "horst", "stefan", "tobias"];
    assert_eq!(names, actual_names);

    let mut dates: Vec<i32> = result.edge_weights().into_iter().copied().collect();
    dates.sort();
    let actual_dates = vec![2018, 2020];
    assert_eq!(dates, actual_dates);

    // From Tobias, only Horst.
    let edges_out_t = result.outgoing_edges(0);
    assert_eq!(edges_out_t.len(), 1);
    assert_eq!(edges_out_t[0], 0);
    // To Bettina, only from Stefan.
    let edges_in_t = result.incoming_edges(3);
    assert_eq!(edges_in_t.len(), 1);
    assert_eq!(edges_in_t[0], 3);

    assert!(result.is_directed());
    for e in result.edges() {
        assert!(result.is_directed_edge(e));
    }
}

#[test]
fn test_filter_map_directly() {
    let graph = make_sample_graph_undirected();
    let result = FilterMap::general_filter_map(
        &graph,
        |g: &VecGraph<&'static str, i32>, n: usize| {
            let degree = g.adjacent_edges(n).len();
            Some(degree).filter(|_| degree >= 2)
        },
        |g: &VecGraph<&'static str, i32>, e: usize| Some(("highly frequented", *g.edge_weight(e))),
    );

    let mut node_indices = result.nodes();
    node_indices.sort();
    assert_eq!(node_indices, vec![0, 1]);
    for n in result.nodes() {
        assert_eq!(*result.node_weight(n), 3);
        assert_eq!(result.adjacent_edges(n).len(), 1);
    }

    let edge_index = result.edges();
    assert_eq!(edge_index[0], 0);
    assert_eq!(edge_index.len(), 1);
    assert_eq!(*result.edge_weight(edge_index[0]), ("highly frequented", 5));
}

#[test]
fn test_map_only() {
    let graph = make_sample_graph_mass_filter_map();
    let temp_1 = FilterMap::weight_map(&graph, |n: &u64| n * n, |e: &u64| e * e);
    let result = FilterMap::weight_map(&temp_1, |n: &u64| n * n, |e: &u64| e * e);

    let mut node_refs = result.nodes();
    let mut node_refs_actual = graph.nodes();
    node_refs.sort();
    node_refs_actual.sort();
    assert_eq!(node_refs, node_refs_actual);
    for n in node_refs {
        let weight = *result.node_weight(n);
        let w = n as u64;
        assert_eq!(w * w * w * w, weight);

        let mut edges = result.adjacent_edges(n);
        edges.sort();
        let mut edges_actual = graph.adjacent_edges(n);
        edges_actual.sort();
        assert_eq!(edges, edges_actual);
    }

    let mut edge_refs = result.edges();
    edge_refs.sort();
    let mut edge_refs_actual = graph.edges();
    edge_refs_actual.sort();
    assert_eq!(edge_refs, edge_refs_actual);

    for e in edge_refs {
        let weight = *result.edge_weight(e);
        let w = e as u64;
        assert_eq!(w * w * w * w, weight);

        let (p1, p2) = result.adjacent_nodes(e);
        let (a1, a2) = graph.adjacent_nodes(e);
        assert_eq!(p1, a1);
        assert_eq!(p2, a2);
    }
}

#[test]
fn identity_map_mirrors_base() {
    let graph = make_sample_graph_variant();
    let view = FilterMap::weight_map(&graph, |p: &Person| p, |f: &FriendOf| f);
    assert_eq!(view.count_nodes(), graph.count_nodes());
    assert_eq!(view.count_edges(), graph.count_edges());
    for n in graph.nodes() {
        assert_eq!(*view.node_weight(n), graph.node_weight(n));
        assert_eq!(view.outgoing_edges(n), graph.outgoing_edges(n));
        assert_eq!(view.incoming_edges(n), graph.incoming_edges(n));
    }
    for e in graph.edges() {
        assert_eq!(*view.edge_weight(e), graph.edge_weight(e));
        assert_eq!(view.adjacent_nodes(e), graph.adjacent_nodes(e));
    }
}

#[test]
fn accept_all_filter_mirrors_base() {
    let graph = make_sample_graph_variant();
    let view = FilterMap::weight_filter(&graph, |_: &Person| true, |_: &FriendOf| true);
    assert_eq!(view.count_nodes(), 4);
    assert_eq!(view.count_edges(), 4);
    for n in graph.nodes() {
        assert_eq!(*view.node_weight(n), graph.node_weight(n));
        assert_eq!(view.adjacent_edges(n), graph.adjacent_edges(n));
    }
    for e in graph.edges() {
        assert_eq!(view.adjacent_nodes(e), graph.adjacent_nodes(e));
    }
}

#[test]
fn composed_filter_maps_equal_one() {
    let graph = make_sample_graph_mass_filter_map();
    let inner = FilterMap::weight_filter_map(
        &graph,
        |n: &u64| Some(n + 1).filter(|_| n % 2 == 0),
        |e: &u64| Some(*e),
    );
    let outer = FilterMap::weight_filter_map(
        &inner,
        |n: &u64| Some(n * 10).filter(|_| n % 3 == 1),
        |e: &u64| Some(e + 7),
    );
    let single = FilterMap::weight_filter_map(
        &graph,
        |n: &u64| Some(n + 1).filter(|_| n % 2 == 0).filter(|m| m % 3 == 1).map(|m| m * 10),
        |e: &u64| Some(e + 7),
    );
    let mut outer_nodes = outer.nodes();
    outer_nodes.sort();
    let mut single_nodes = single.nodes();
    single_nodes.sort();
    assert_eq!(outer_nodes, single_nodes);
    assert!(!outer_nodes.is_empty());
    for n in outer_nodes {
        assert_eq!(outer.node_weight(n), single.node_weight(n));
    }
    let mut outer_edges = outer.edges();
    outer_edges.sort();
    let mut single_edges = single.edges();
    single_edges.sort();
    assert_eq!(outer_edges, single_edges);
    for e in outer_edges {
        assert_eq!(outer.edge_weight(e), single.edge_weight(e));
    }
}

#[test]
fn explicit_maps_view() {
    let graph = make_sample_graph_variant();
    let view = FilterMap::new(&graph, vec![(0, 'a'), (2, 'c')], vec![(0, 20)]);
    assert_eq!(view.count_nodes(), 2);
    assert_eq!(view.count_edges(), 1);
    assert_eq!(*view.node_weight(2), 'c');
    assert_eq!(*view.edge_weight(0), 20);
    assert_eq!(view.adjacent_nodes(0), (0, 2));
    assert_eq!(view.outgoing_edges(0), vec![0]);
    assert!(view.incoming_edges(0).is_empty());
}
