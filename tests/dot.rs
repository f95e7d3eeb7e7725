use graf::{to_dot, AdjacencyList, Edge, Node};

#[test]
fn dot_of_small_graph() {
    let mut g = AdjacencyList::new();
    let a = g.add_node();
    let b = g.add_node();
    g.add_edge(a, b, 1);
    assert_eq!(to_dot(&g), "digraph G {\nN0\nN1\nN0 -> N1 [label = \"1\"];\n\n}\n");
}

#[test]
fn dot_of_empty_graph() {
    let g = AdjacencyList::new();
    assert_eq!(to_dot(&g), "digraph G {\n\n}\n");
}

#[test]
fn dot_writes_multi_digit_numbers() {
    let mut g = AdjacencyList::new();
    for _ in 0..12 {
        g.add_node();
    }
    g.add_edge(Node(11), Node(10), 1414);
    g.add_edge(Node(11), Node(0), 0);
    let text = to_dot(&g);
    assert!(text.starts_with("digraph G {\nN0\nN1\n"));
    assert!(text.contains("N9\nN10\nN11\n"));
    assert!(text.ends_with("N11 -> N10 [label = \"1414\"];\nN11 -> N0 [label = \"0\"];\n\n}\n"));
}

#[test]
fn write_appends_to_existing_text() {
    let mut g = AdjacencyList::new();
    g.add_node();
    let mut out = String::from("// graph\n");
    graf::fmt::write(&g, &mut out);
    assert_eq!(out, "// graph\ndigraph G {\nN0\n\n}\n");
}

#[test]
fn edge_from_pair() {
    let e: Edge = (Node(3), 9).into();
    assert_eq!(e, Edge { node: Node(3), weight: 9 });
    assert_eq!(graf::edge(Node(3), 9), e);
}
