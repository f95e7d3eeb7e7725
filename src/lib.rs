//! Shortest paths over a static weighted graph, with node-indexed scratch
//! containers that are reused from one query to the next.
use vstd::prelude::*;

mod astar;
pub mod fmt;
mod graph;
pub mod grid;
mod map;
mod search_spec;
mod set;
mod traverse;

pub use astar::{
    a_star, edges_before, follows_parents, lemma_reset_matches_fresh, lock_graph, shortest_path, AStarAcceleration,
    HeuristicDistance, ImmutableAdjacencyList,
};
pub use fmt::{
    decimal, digit_char, dot_text, edge_line, edge_lines, graph_edge_lines, node_label, node_lines,
    to_dot,
};
pub use graph::{has_edge_spec, leads_to, lists_wf, AdjacencyList};
pub use map::NodeMap;
pub use search_spec::{
    closed_at, has_weighted_edge, is_path, is_simple, is_walk, lemma_closed_holds_reachable,
    lemma_empty_unreachable, lemma_path_reachable, reachable,
};
pub use set::NodeSet;
pub use traverse::{acyclic, bfs, compute_roots, dfs, reached_at, reached_in_order, has_incoming, respects_edges, topsort};

verus! {

/// Weight of an edge, and cost of a path: a non-negative integer.
pub type Weight = u64;

/// A vertex of a graph: a dense, zero-based index.
#[derive(Debug, Clone, Copy, PartialEq, Eq, Structural, Hash, PartialOrd, Ord)]
pub struct Node(pub usize);

/// A directed edge seen from its source: the node it leads to and its weight.
#[derive(Debug, Clone, Copy, PartialEq, Eq, Structural)]
pub struct Edge {
    pub node: Node,
    pub weight: Weight,
}

/// A path: the start node with weight zero, then each node reached, with the
/// weight of the edge that reached it.
pub type Path = Vec<Edge>;

impl From<(Node, Weight)> for Edge {
    fn from(t: (Node, Weight)) -> (e: Edge) {
        Edge { node: t.0, weight: t.1 }
    }
}

impl vstd::std_specs::convert::FromSpecImpl<(Node, Weight)> for Edge {
    open spec fn obeys_from_spec() -> bool {
        true
    }

    open spec fn from_spec(t: (Node, Weight)) -> Edge {
        Edge { node: t.0, weight: t.1 }
    }
}

/// The edge to `n` of weight `weight`.
pub fn edge(n: Node, weight: Weight) -> (e: Edge)
    ensures
        e == (Edge { node: n, weight }),
{
    Edge { node: n, weight }
}

} // verus!
