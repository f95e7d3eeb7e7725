use graf::{lock_graph, AdjacencyList, Edge, Node};

fn example_edges_cyclic() -> Vec<(usize, usize)> {
    vec![(1, 4), (3, 6), (4, 1), (10, 19), (0, 19), (0, 4)]
}

fn init(edges: &[(usize, usize)]) -> AdjacencyList {
    let mut g = AdjacencyList::new();

    let max = edges
        .iter()
        .max_by(|x, y| x.0.max(x.1).cmp(&y.0.max(y.1)))
        .unwrap();
    let max = std::cmp::max(max.0, max.1);
    let nodes: Vec<Node> = (0..max + 1).map(|_| g.add_node()).collect();
    for e in edges.iter() {
        g.add_edge(nodes[e.0], nodes[e.1], 1);
    }

    g
}

#[test]
fn add_edge() {
    let mut g = AdjacencyList::new();

    let a = g.add_node();
    let b = g.add_node();
    g.add_edge(a, b, 1);
    assert!(g.has_edge(a, b));
    assert!(!g.has_edge(b, a));
}

#[test]
fn add_unidirectional() {
    let mut g = AdjacencyList::new();

    let a = g.add_node();
    let b = g.add_node();
    g.add_edge(a, b, 1);
    g.add_edge(b, a, 1);
    assert!(g.has_edge(a, b));
    assert!(g.has_edge(b, a));
}

#[test]
fn add() {
    let edges = example_edges_cyclic();
    let g = init(&edges);
    for e in &edges {
        assert!(g.has_edge(Node(e.0), Node(e.1)));
    }
}

#[test]
fn add_node_numbers_from_zero() {
    let mut g = AdjacencyList::with_capacity(4);
    assert!(g.is_empty());
    assert_eq!(g.add_node(), Node(0));
    assert_eq!(g.add_node(), Node(1));
    assert_eq!(g.add_node(), Node(2));
    assert_eq!(g.len(), 3);
    assert!(!g.is_empty());
    assert_eq!(g.nodes(), vec![Node(0), Node(1), Node(2)]);
}

#[test]
fn first_weight_wins() {
    let mut g = AdjacencyList::new();
    let a = g.add_node();
    let b = g.add_node();
    g.add_edge(a, b, 3);
    g.add_edge(a, b, 9);
    assert_eq!(g.edges(a), &[Edge { node: b, weight: 3 }][..]);
}

#[test]
fn has_edge_outside_graph_is_false() {
    let mut g = AdjacencyList::new();
    let a = g.add_node();
    assert!(!g.has_edge(a, Node(5)));
    assert!(!g.has_edge(Node(5), a));
    assert!(g.is_valid(a));
    assert!(!g.is_valid(Node(1)));
}

#[test]
fn remove_edge_moves_last_into_place() {
    let mut g = AdjacencyList::new();
    let ns: Vec<Node> = (0..4).map(|_| g.add_node()).collect();
    g.add_edge(ns[0], ns[1], 1);
    g.add_edge(ns[0], ns[2], 2);
    g.add_edge(ns[0], ns[3], 3);
    assert_eq!(g.remove_edge(ns[0], ns[1]), Some(Edge { node: ns[1], weight: 1 }));
    assert_eq!(
        g.edges(ns[0]),
        &[Edge { node: ns[3], weight: 3 }, Edge { node: ns[2], weight: 2 }][..]
    );
    assert_eq!(g.remove_edge(ns[0], ns[1]), None);
    assert!(!g.has_edge(ns[0], ns[1]));
}

#[test]
fn clear_edges_returns_them() {
    let mut g = AdjacencyList::new();
    let a = g.add_node();
    let b = g.add_node();
    g.add_edge(a, b, 4);
    g.add_edge(a, a, 5);
    let removed = g.clear_edges(a);
    assert_eq!(removed, vec![Edge { node: b, weight: 4 }, Edge { node: a, weight: 5 }]);
    assert!(g.edges(a).is_empty());
    assert_eq!(g.len(), 2);
}

#[test]
fn locked_graph_keeps_edges_in_order() {
    let mut g = AdjacencyList::new();
    let ns: Vec<Node> = (0..3).map(|_| g.add_node()).collect();
    g.add_edge(ns[2], ns[0], 7);
    g.add_edge(ns[0], ns[2], 5);
    g.add_edge(ns[0], ns[1], 6);
    let locked = lock_graph(&g);
    assert_eq!(locked.len(), 3);
    assert!(!locked.is_empty());
    assert_eq!(
        locked.edges(ns[0]),
        &[Edge { node: ns[2], weight: 5 }, Edge { node: ns[1], weight: 6 }][..]
    );
    assert!(locked.edges(ns[1]).is_empty());
    assert_eq!(locked.edges(ns[2]), &[Edge { node: ns[0], weight: 7 }][..]);
    g.add_edge(ns[1], ns[2], 1);
    assert!(locked.edges(ns[1]).is_empty());
}

#[test]
fn locked_empty_graph() {
    let g = AdjacencyList::new();
    let locked = lock_graph(&g);
    assert_eq!(locked.len(), 0);
    assert!(locked.is_empty());
}
