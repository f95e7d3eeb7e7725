use graf::{compute_roots, topsort, AdjacencyList, Edge, Node};

fn example_graph_trivial() -> AdjacencyList {
    let mut g = AdjacencyList::new();
    let ns: [Node; 3] = std::array::from_fn(|_| g.add_node());

    g.add_edge(ns[0], ns[1], 1);
    g.add_edge(ns[0], ns[2], 1);

    g
}

fn example_edges_cyclic() -> Vec<(usize, usize)> {
    vec![(1, 4), (3, 6), (4, 1), (10, 19), (0, 19), (0, 4)]
}

fn example_edges_dag() -> Vec<(usize, usize)> {
    vec![
        (0, 1),
        (1, 2),
        (1, 3),
        (1, 4),
        (7, 10),
        (10, 11),
        (11, 12),
        (12, 13),
        (8, 9),
        (14, 9),
        (9, 16),
        (9, 17),
    ]
}

fn init(edges: &[(usize, usize)]) -> AdjacencyList {
    let mut g = AdjacencyList::new();

    let max = edges
        .iter()
        .max_by(|x, y| x.0.max(x.1).cmp(&y.0.max(y.1)))
        .unwrap();
    let max = std::cmp::max(max.0, max.1);
    let nodes: Vec<Node> = (0..max + 1).map(|_| g.add_node()).collect();
    for e in edges.iter() {
        g.add_edge(nodes[e.0], nodes[e.1], 1);
    }

    g
}

fn graph_from(edges_fn: fn() -> Vec<(usize, usize)>) -> AdjacencyList {
    let e = edges_fn();
    init(&e)
}

fn check_ordering(name: &'static str, actual: &[Node], expected: &[usize]) {
    let expected_nodes: Vec<Node> = expected.iter().copied().map(Node).collect();
    assert_eq!(actual, &expected_nodes[..], "node order differs in {name}");
}

#[test]
fn dfs() {
    let g = graph_from(example_edges_cyclic);
    let visited = graf::dfs(&g);

    let expected: Vec<Node> = vec![
        0, 4, 1, 19, 2, 3, 6, 5, 7, 8, 9, 10, 11, 12, 13, 14, 15, 16, 17, 18,
    ]
    .into_iter()
    .map(Node)
    .collect();
    assert_eq!(visited, expected);
}

#[test]
fn bfs() {
    let g = graph_from(example_edges_cyclic);
    let visited = graf::bfs(&g);

    let expected: Vec<Node> = vec![
        0, 19, 4, 1, 2, 3, 6, 5, 7, 8, 9, 10, 11, 12, 13, 14, 15, 16, 17, 18,
    ]
    .into_iter()
    .map(Node)
    .collect();
    assert_eq!(visited, expected);
}

#[test]
fn lib_topsort_trivial() {
    let g = example_graph_trivial();
    let out = topsort(&g);
    check_ordering("topsort_straight", &out, &[0, 2, 1]);
}

#[test]
fn lib_topsort_straight() {
    let g = init(&[(0, 1), (1, 2), (2, 3), (3, 4)]);
    let out = topsort(&g);
    check_ordering("topsort_straight", &out, &[0, 1, 2, 3, 4]);
}

#[test]
fn lib_topsort_2() {
    let g = init(&[(0, 1), (2, 1), (1, 3), (4, 3)]);
    let out = topsort(&g);
    check_ordering("topsort_2", &out, &[4, 2, 0, 1, 3]);
}

#[test]
fn lib_topsort_dag_example() {
    let g = graph_from(example_edges_dag);
    let expected = &[15, 14, 8, 9, 17, 16, 7, 10, 11, 12, 13, 6, 5, 0, 1, 4, 3, 2];
    let out = topsort(&g);
    check_ordering("topsort_dag_example", &out, expected);
}

#[test]
fn topsort_topsort_trivial() {
    let g = example_graph_trivial();
    let out = topsort(&g);
    check_ordering("topsort_straight", &out, &[0, 2, 1]);
}

#[test]
fn topsort_topsort_straight() {
    let g = init(&[(0, 1), (1, 2), (2, 3), (3, 4)]);
    let out = topsort(&g);
    check_ordering("topsort_straight", &out, &[0, 1, 2, 3, 4]);
}

#[test]
fn topsort_topsort_2() {
    let g = init(&[(0, 1), (2, 1), (1, 3), (4, 3)]);
    let out = topsort(&g);
    check_ordering("topsort_2", &out, &[4, 2, 0, 1, 3]);
}

#[test]
fn topsort_topsort_dag_example() {
    let g = graph_from(example_edges_dag);
    let expected = &[15, 14, 8, 9, 17, 16, 7, 10, 11, 12, 13, 6, 5, 0, 1, 4, 3, 2];
    let out = topsort(&g);
    check_ordering("topsort_dag_example", &out, expected);
}

#[test]
fn topsort_leaves_out_cycles() {
    // 1 and 2 form a cycle, 3 hangs off it; only 0 and 4 are free of it.
    let g = init(&[(0, 1), (1, 2), (2, 1), (2, 3), (0, 4)]);
    let out = topsort(&g);
    check_ordering("topsort_leaves_out_cycles", &out, &[0, 4]);
}

#[test]
fn traversals_of_empty_graph() {
    let g = AdjacencyList::new();
    assert!(graf::dfs(&g).is_empty());
    assert!(graf::bfs(&g).is_empty());
    assert!(topsort(&g).is_empty());
    assert!(compute_roots(&g).is_empty());
}

#[test]
fn roots_are_nodes_without_incoming_edges() {
    let g = init(&[(3, 1), (0, 1), (1, 2), (5, 5)]);
    assert_eq!(compute_roots(&g), vec![Node(0), Node(3), Node(4)]);
}

#[test]
fn inverted_turns_edges_around() {
    let mut g = AdjacencyList::new();
    let ns: Vec<Node> = (0..3).map(|_| g.add_node()).collect();
    g.add_edge(ns[2], ns[0], 7);
    g.add_edge(ns[0], ns[1], 5);
    g.add_edge(ns[1], ns[0], 4);
    let inv = g.inverted();
    assert_eq!(inv.len(), 3);
    assert_eq!(
        inv.edges(ns[0]),
        &[Edge { node: ns[1], weight: 1 }, Edge { node: ns[2], weight: 1 }][..]
    );
    assert_eq!(inv.edges(ns[1]), &[Edge { node: ns[0], weight: 1 }][..]);
    assert!(inv.edges(ns[2]).is_empty());
}

#[test]
fn clone_is_independent() {
    let mut g = init(&[(0, 1)]);
    let copy = g.clone();
    g.add_edge(Node(1), Node(0), 2);
    assert!(g.has_edge(Node(1), Node(0)));
    assert!(!copy.has_edge(Node(1), Node(0)));
    assert!(copy.has_edge(Node(0), Node(1)));
}
