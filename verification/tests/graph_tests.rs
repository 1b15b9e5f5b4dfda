use bfs_graph::graph::Graph;

#[test]
fn graph_vertex_count_test() {
    let mut g = Graph::new();

    g.add_node();
    g.add_node();

    assert_eq!(2, g.v());

    g.add_node();

    assert_eq!(3, g.v());
}

#[test]
fn graph_edge_count_test() {
    let mut g = Graph::new();

    g.add_node();
    g.add_node();

    assert_eq!(0, g.e());

    g.add_edge(0, 1);

    assert_eq!(1, g.e());

    g.add_node();
    g.add_edge(2, 1);

    assert_eq!(2, g.e());
}

#[test]
fn empty_graph_counts() {
    let mut g = Graph::new();

    assert_eq!(0, g.v());
    assert_eq!(0, g.e());

    g.add_edge(0, 0);

    assert_eq!(0, g.v());
    assert_eq!(0, g.e());
}

#[test]
fn add_edge_invalid_endpoint_is_noop() {
    let mut g = Graph::new();

    g.add_node();
    g.add_node();
    g.add_edge(0, 1);

    assert_eq!(1, g.e());

    g.add_edge(0, 5);
    g.add_edge(7, 1);

    assert_eq!(1, g.e());
    assert_eq!(vec![1 as usize], *g.neighbors(0));
    assert_eq!(vec![0 as usize], *g.neighbors(1));
}

#[test]
fn add_edge_keeps_both_endpoint_lists() {
    let mut g = Graph::new();

    g.add_node();
    g.add_node();
    g.add_node();
    g.add_edge(0, 1);
    g.add_edge(0, 2);

    assert_eq!(vec![1 as usize, 2 as usize], *g.neighbors(0));
    assert_eq!(vec![0 as usize], *g.neighbors(1));
    assert_eq!(vec![0 as usize], *g.neighbors(2));
}

#[test]
fn self_loop_counts_once() {
    let mut g = Graph::new();

    g.add_node();
    g.add_edge(0, 0);

    assert_eq!(1, g.e());
    assert_eq!(vec![0 as usize, 0 as usize], *g.neighbors(0));
}
