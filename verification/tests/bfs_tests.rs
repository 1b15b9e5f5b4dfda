use bfs_graph::bfs::{BreadthFirstPaths, Path};
use bfs_graph::graph::Graph;
use bfs_graph::symbol_graph::SymbolGraph;

fn scenario_graph() -> Graph {
    let mut graph = Graph::new();

    (0..=8).for_each(|_| {
        graph.add_node();
    });

    graph.add_edge(1, 3);
    graph.add_edge(1, 4);
    graph.add_edge(3, 5);
    graph.add_edge(5, 8);
    graph.add_edge(3, 7);
    graph.add_edge(5, 6);
    graph.add_edge(4, 8);

    graph
}

#[test]
fn test_has_path_to() {
    let graph = scenario_graph();

    let paths_for_7 = BreadthFirstPaths::new(&graph, 7);

    assert!(!paths_for_7.has_path_to(0));
    assert!(!paths_for_7.has_path_to(2));
    assert!(paths_for_7.has_path_to(1));
    assert!(paths_for_7.has_path_to(3));
    assert!(paths_for_7.has_path_to(4));
    assert!(paths_for_7.has_path_to(5));
    assert!(paths_for_7.has_path_to(6));
    assert!(paths_for_7.has_path_to(8));

    assert!(!paths_for_7.has_path_to(1000));
}

#[test]
fn test_path_to() {
    let graph = scenario_graph();

    let paths_for_7 = BreadthFirstPaths::new(&graph, 7);

    let shortest_path_from_7_to_0 = paths_for_7.path_to(0);

    assert!(shortest_path_from_7_to_0.is_none());

    let mut path = paths_for_7.path_to(8).unwrap();

    assert_eq!(Some(7 as usize), path.next());
    assert_eq!(Some(3 as usize), path.next());
    assert_eq!(Some(5 as usize), path.next());
    assert_eq!(Some(8 as usize), path.next());
}

#[test]
fn test_symbol_path_to() {
    let v0 = "Umi";
    let v1 = "Garrett";
    let v2 = "Joe";
    let v3 = "Meg";
    let v4 = "Alex";
    let v5 = "Sonya";
    let v6 = "Ike";
    let v7 = "Reed";
    let v8 = "Belle";

    let mut sg = SymbolGraph::new();

    sg.add_node(&v0);
    sg.add_node(&v1);
    sg.add_node(&v2);
    sg.add_node(&v3);
    sg.add_node(&v4);
    sg.add_node(&v5);
    sg.add_node(&v6);
    sg.add_node(&v7);
    sg.add_node(&v8);

    sg.add_edge(&v1, &v3);
    sg.add_edge(&v1, &v4);
    sg.add_edge(&v3, &v5);
    sg.add_edge(&v5, &v8);
    sg.add_edge(&v3, &v7);
    sg.add_edge(&v5, &v6);
    sg.add_edge(&v4, &v8);

    let paths_for_7 = BreadthFirstPaths::new(sg.graph(), 7);

    let mut path = paths_for_7.path_to(8).unwrap();

    let mut result: Vec<String> = Vec::new();
    while let Some(val) = path.next() {
        result.push(sg.data_of(val).clone());
    }

    assert_eq!(vec!["Reed", "Meg", "Sonya", "Belle"], result);
}

#[test]
fn path_to_source_is_single_vertex() {
    let graph = scenario_graph();

    let paths_for_7 = BreadthFirstPaths::new(&graph, 7);

    assert!(paths_for_7.has_path_to(7));

    let mut path = paths_for_7.path_to(7).unwrap();

    assert_eq!(Some(7 as usize), path.next());
    assert_eq!(None, path.next());
}

#[test]
fn path_endpoints_and_steps_are_adjacent() {
    let graph = scenario_graph();

    let paths_for_7 = BreadthFirstPaths::new(&graph, 7);

    let mut path = paths_for_7.path_to(6).unwrap();
    let mut vertices: Vec<usize> = Vec::new();
    while let Some(v) = path.next() {
        vertices.push(v);
    }

    assert_eq!(Some(&7), vertices.first());
    assert_eq!(Some(&6), vertices.last());
    for pair in vertices.windows(2) {
        assert!(graph.neighbors(pair[0]).contains(&pair[1]));
    }
    assert_eq!(3, vertices.len() - 1);
}

#[test]
fn try_new_rejects_out_of_range_source() {
    let empty = Graph::new();

    assert!(BreadthFirstPaths::try_new(&empty, 0).is_none());
    assert!(BreadthFirstPaths::try_new(&empty, 5).is_none());

    let mut g = Graph::new();
    g.add_node();

    assert!(BreadthFirstPaths::try_new(&g, 1).is_none());

    let bfp = BreadthFirstPaths::try_new(&g, 0).unwrap();
    assert!(bfp.has_path_to(0));
}

#[test]
fn fresh_path_is_empty() {
    let mut path = Path::new();

    assert_eq!(None, path.next());
}

#[test]
fn bfs_prefers_fewest_edges() {
    // 0-1, 1-2 and the shortcut 0-2: the path from 0 to 2 takes one edge.
    let mut g = Graph::new();
    g.add_node();
    g.add_node();
    g.add_node();
    g.add_edge(0, 1);
    g.add_edge(1, 2);
    g.add_edge(0, 2);

    let bfp = BreadthFirstPaths::new(&g, 0);
    let mut path = bfp.path_to(2).unwrap();

    assert_eq!(Some(0 as usize), path.next());
    assert_eq!(Some(2 as usize), path.next());
    assert_eq!(None, path.next());
}
