use graf::grid::{moves_within, DIAG_COST, STRAIGHT_COST};
use graf::{a_star, AStarAcceleration, AdjacencyList, Edge, HeuristicDistance, Node, Weight};

struct Zero;

impl HeuristicDistance for Zero {
    fn cost(&self, _node: &Node) -> Weight {
        0
    }
}

/// Straight-line distance on a grid of `width` columns, in cost units,
/// rounded down.
struct Euclid {
    width: usize,
    goal: Node,
}

impl HeuristicDistance for Euclid {
    fn cost(&self, node: &Node) -> Weight {
        let (x, y) = ((node.0 % self.width) as f64, (node.0 / self.width) as f64);
        let (gx, gy) = (
            (self.goal.0 % self.width) as f64,
            (self.goal.0 / self.width) as f64,
        );
        (((gx - x).powi(2) + (gy - y).powi(2)).sqrt() * STRAIGHT_COST as f64).floor() as Weight
    }
}


fn graph(n: usize, edges: &[(usize, usize, Weight)]) -> AdjacencyList {
    let mut g = AdjacencyList::new();
    for _ in 0..n {
        g.add_node();
    }
    for &(a, b, w) in edges {
        g.add_edge(Node(a), Node(b), w);
    }
    g
}

fn grid(width: usize, height: usize) -> AdjacencyList {
    let mut g = AdjacencyList::new();
    for _ in 0..width * height {
        g.add_node();
    }
    for y in 0..height {
        for x in 0..width {
            for ((nx, ny), w) in moves_within(width, height, x, y) {
                g.add_edge(Node(y * width + x), Node(ny * width + nx), w);
            }
        }
    }
    g
}

fn cost(p: &[Edge]) -> Weight {
    p.iter().map(|e| e.weight).sum()
}

fn e(n: usize, w: Weight) -> Edge {
    Edge { node: Node(n), weight: w }
}

#[test]
fn two_edges_from_start() {
    let g = graph(3, &[(0, 1, 1), (0, 2, 1)]);
    let mut acc = AStarAcceleration::new(&g);
    let p = a_star(&mut acc, Node(0), Node(2), Zero);
    assert_eq!(p, Some(vec![e(0, 0), e(2, 1)]));
}

#[test]
fn grid_corner_to_corner_is_diagonal() {
    let g = grid(3, 3);
    let mut acc = AStarAcceleration::new(&g);
    let goal = Node(8);
    let p = a_star(&mut acc, Node(0), goal, Euclid { width: 3, goal }).unwrap();
    assert_eq!(cost(&p), 2 * DIAG_COST);
    assert_eq!(p, vec![e(0, 0), e(4, DIAG_COST), e(8, DIAG_COST)]);
}

#[test]
fn disconnected_components_have_no_path() {
    let g = graph(4, &[(0, 1, 1), (1, 0, 1), (2, 3, 1), (3, 2, 1)]);
    let mut acc = AStarAcceleration::new(&g);
    assert_eq!(a_star(&mut acc, Node(0), Node(3), Zero), None);
    assert_eq!(a_star(&mut acc, Node(2), Node(1), Zero), None);
    assert_eq!(a_star(&mut acc, Node(2), Node(3), Zero), Some(vec![e(2, 0), e(3, 1)]));
}

#[test]
fn same_start_and_end_has_no_path() {
    let g = graph(2, &[(0, 1, 1), (1, 0, 1), (0, 0, 1)]);
    let mut acc = AStarAcceleration::new(&g);
    assert_eq!(a_star(&mut acc, Node(0), Node(0), Zero), None);
    assert_eq!(a_star(&mut acc, Node(1), Node(1), Zero), None);
}

#[test]
fn empty_graph_has_no_path() {
    let g = AdjacencyList::new();
    let mut acc = AStarAcceleration::new(&g);
    assert_eq!(a_star(&mut acc, Node(0), Node(1), Zero), None);
    assert_eq!(a_star(&mut acc, Node(0), Node(0), Zero), None);
}

#[test]
fn edges_are_directed() {
    let g = graph(2, &[(0, 1, 3)]);
    let mut acc = AStarAcceleration::new(&g);
    assert_eq!(a_star(&mut acc, Node(1), Node(0), Zero), None);
    assert_eq!(a_star(&mut acc, Node(0), Node(1), Zero), Some(vec![e(0, 0), e(1, 3)]));
}

#[test]
fn zero_heuristic_finds_cheapest_path() {
    let g = graph(
        5,
        &[(0, 1, 4), (0, 2, 1), (2, 1, 1), (1, 3, 1), (2, 3, 5), (3, 4, 2)],
    );
    let mut acc = AStarAcceleration::new(&g);
    let p = a_star(&mut acc, Node(0), Node(4), Zero).unwrap();
    assert_eq!(p, vec![e(0, 0), e(2, 1), e(1, 1), e(3, 1), e(4, 2)]);
    assert_eq!(cost(&p), 5);
}

#[test]
fn path_weights_are_per_edge() {
    let g = graph(4, &[(0, 1, 2), (1, 2, 3), (2, 3, 4)]);
    let mut acc = AStarAcceleration::new(&g);
    let p = a_star(&mut acc, Node(0), Node(3), Zero).unwrap();
    assert_eq!(p, vec![e(0, 0), e(1, 2), e(2, 3), e(3, 4)]);
}

#[test]
fn equal_priorities_pop_lowest_node_first() {
    // Both 1 and 2 reach 3 at the same cost; 1 is expanded first and its
    // edge is kept, as a later equal cost does not replace it.
    let g = graph(4, &[(0, 2, 1), (0, 1, 1), (2, 3, 1), (1, 3, 1)]);
    let mut acc = AStarAcceleration::new(&g);
    let p = a_star(&mut acc, Node(0), Node(3), Zero).unwrap();
    assert_eq!(p, vec![e(0, 0), e(1, 1), e(3, 1)]);
}

#[test]
fn queued_node_keeps_its_first_priority() {
    // 1 is queued at priority 10, then reached for 2 through node 2. Its
    // queue entry keeps priority 10, so the goal 3 (priority 5) is popped
    // first, by the direct edge.
    let g = graph(4, &[(0, 1, 10), (0, 2, 1), (0, 3, 5), (2, 1, 1), (1, 3, 1)]);
    let mut acc = AStarAcceleration::new(&g);
    let p = a_star(&mut acc, Node(0), Node(3), Zero).unwrap();
    assert_eq!(p, vec![e(0, 0), e(3, 5)]);
}

#[test]
fn reused_accelerator_matches_fresh_one() {
    let g = grid(4, 3);
    let queries = [(0, 11), (11, 0), (5, 6), (3, 8), (0, 0), (7, 7), (10, 1)];
    let mut shared = AStarAcceleration::new(&g);
    for &(s, t) in &queries {
        let h = Euclid { width: 4, goal: Node(t) };
        let reused = a_star(&mut shared, Node(s), Node(t), h);
        let mut fresh = AStarAcceleration::new(&g);
        let h = Euclid { width: 4, goal: Node(t) };
        let alone = a_star(&mut fresh, Node(s), Node(t), h);
        assert_eq!(reused, alone);
    }
}

#[test]
fn clear_transients_keeps_graph() {
    let g = graph(3, &[(0, 1, 1), (1, 2, 1)]);
    let mut acc = AStarAcceleration::new(&g);
    acc.clear_transients();
    acc.clear_transients();
    assert_eq!(a_star(&mut acc, Node(0), Node(2), Zero), Some(vec![e(0, 0), e(1, 1), e(2, 1)]));
}

#[test]
fn zero_weight_cycle_terminates() {
    let g = graph(4, &[(0, 1, 0), (1, 2, 0), (2, 0, 0), (2, 3, 0)]);
    let mut acc = AStarAcceleration::new(&g);
    let p = a_star(&mut acc, Node(1), Node(3), Zero).unwrap();
    assert_eq!(p, vec![e(1, 0), e(2, 0), e(3, 0)]);
    assert_eq!(a_star(&mut acc, Node(3), Node(0), Zero), None);
}
