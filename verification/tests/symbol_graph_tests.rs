use bfs_graph::symbol_graph::SymbolGraph;

#[test]
fn symbol_graph_vertex_count_test() {
    let v1 = "Garrett";
    let v2 = "Joe";

    let mut sg = SymbolGraph::new();

    assert_eq!(0, sg.v());

    sg.add_node(&v1);
    sg.add_node(&v2);

    assert_eq!(2, sg.v());
}

#[test]
fn symbol_graph_edge_count_test() {
    let v1 = "Garrett";
    let v2 = "Joe";
    let v3 = "Meg";

    let mut sg = SymbolGraph::new();

    assert_eq!(0, sg.e());

    sg.add_node(&v1);
    sg.add_node(&v2);

    sg.add_edge(&v2, &v1);

    assert_eq!(1, sg.e());

    sg.add_node(&v3);
    sg.add_edge(&v3, &v1);

    assert_eq!(2, sg.e());
}

#[test]
fn connection_check_text() {
    let v1 = "Garrett";
    let v2 = "Joe";
    let v3 = "Meg";

    let mut sg = SymbolGraph::new();

    assert_eq!(0, sg.e());

    sg.add_node(&v1);
    sg.add_node(&v2);

    sg.add_edge(&v2, &v1);

    assert_eq!(1, sg.e());

    sg.add_node(&v3);
    sg.add_edge(&v3, &v1);

    assert_eq!(2, sg.e());

    let idx = sg.index_of(&v1).unwrap();
    let connections = sg.graph().neighbors(idx);
    assert_eq!(vec![1 as usize, 2 as usize], *connections);
}

#[test]
fn data_of_round_trip() {
    let mut sg = SymbolGraph::new();

    sg.add_node("Garrett");
    sg.add_node("Joe");
    sg.add_node("Meg");

    for label in ["Garrett", "Joe", "Meg"] {
        let idx = sg.index_of(label).unwrap();
        assert_eq!(label, sg.data_of(idx).as_str());
    }
}

#[test]
fn labels_map_to_dense_identifiers() {
    let mut sg = SymbolGraph::new();

    sg.add_node("Garrett");
    sg.add_node("Joe");

    assert_eq!(Some(0), sg.index_of("Garrett"));
    assert_eq!(Some(1), sg.index_of("Joe"));
    assert_eq!(None, sg.index_of("Meg"));
}

#[test]
fn duplicate_label_is_noop() {
    let mut sg = SymbolGraph::new();

    sg.add_node("Garrett");
    sg.add_node("Garrett");

    assert_eq!(1, sg.v());
    assert_eq!(Some(0), sg.index_of("Garrett"));
    assert_eq!("Garrett", sg.data_of(0).as_str());
}

#[test]
fn add_edge_missing_label_is_noop() {
    let mut sg = SymbolGraph::new();

    sg.add_node("Garrett");

    sg.add_edge("Garrett", "Joe");
    sg.add_edge("Joe", "Garrett");
    sg.add_edge("Joe", "Meg");

    assert_eq!(0, sg.e());
    assert_eq!(1, sg.v());
    assert!(sg.graph().neighbors(0).is_empty());
}
