use vstd::prelude::*;

use crate::{has_edge_spec, lists_wf, Edge, Node, Weight};

verus! {

/// `g` holds an edge out of `a` with the target and the weight of `e`.
pub open spec fn has_weighted_edge(g: Seq<Seq<Edge>>, a: Node, e: Edge) -> bool {
    a.0 < g.len() && g[a.0 as int].contains(e)
}

/// `p` is a path of `g` from `start` to `end`: it begins with `start` at
/// weight zero, and each later entry is an edge out of the node before it.
pub open spec fn is_path(g: Seq<Seq<Edge>>, start: Node, end: Node, p: Seq<Edge>) -> bool {
    &&& p.len() >= 1
    &&& p[0] == (Edge { node: start, weight: 0 })
    &&& p.last().node == end
    &&& forall|i: int| 0 < i < p.len() ==> has_weighted_edge(g, p[i - 1].node, #[trigger] p[i])
}

/// No node appears twice on the path.
pub open spec fn is_simple(p: Seq<Edge>) -> bool {
    forall|i: int, j: int| 0 <= i < j < p.len() ==> (#[trigger] p[i]).node != (#[trigger] p[j]).node
}

/// Each node of `w` after the first is reached by an edge from the one before.
pub open spec fn is_walk(g: Seq<Seq<Edge>>, w: Seq<Node>) -> bool {
    forall|i: int| 0 < i < w.len() ==> has_edge_spec(g, w[i - 1], #[trigger] w[i])
}

/// Some sequence of edges of `g` leads from `a` to `b`.
pub open spec fn reachable(g: Seq<Seq<Edge>>, a: Node, b: Node) -> bool {
    exists|w: Seq<Node>| w.len() >= 1 && w[0] == a && w.last() == b && #[trigger] is_walk(g, w)
}

pub proof fn lemma_path_reachable(g: Seq<Seq<Edge>>, start: Node, end: Node, p: Seq<Edge>)
    requires
        lists_wf(g),
        is_path(g, start, end, p),
    ensures
        reachable(g, start, end),
{
    let w = p.map_values(|e: Edge| e.node);
    assert forall|i: int| 0 < i < w.len() implies has_edge_spec(g, w[i - 1], #[trigger] w[i]) by {
        assert(has_weighted_edge(g, p[i - 1].node, p[i]));
        let a = p[i - 1].node.0 as int;
        let k = choose|k: int| 0 <= k < g[a].len() && g[a][k] == p[i];
        assert(g[a][k].node == w[i]);
    }
    assert(is_walk(g, w));
}

/// A graph without nodes has no walk between two distinct nodes.
pub proof fn lemma_empty_unreachable(g: Seq<Seq<Edge>>, a: Node, b: Node)
    requires
        g.len() == 0,
        a != b,
    ensures
        !reachable(g, a, b),
{
    assert forall|w: Seq<Node>| w.len() >= 1 && w[0] == a && w.last() == b implies !#[trigger] is_walk(
        g,
        w,
    ) by {
        if is_walk(g, w) {
            assert(w.len() >= 2);
            assert(has_edge_spec(g, w[0], w[1]));
        }
    }
}

/// Every edge out of `u` leads to a node that `c` holds.
pub open spec fn closed_at(g: Seq<Seq<Edge>>, c: Map<Node, Weight>, u: Node) -> bool {
    forall|k: int|
        0 <= k < g[u.0 as int].len() ==> c.contains_key(#[trigger] g[u.0 as int][k].node)
}

/// A set of nodes closed under the edges holds every node reachable from one
/// of its members.
pub proof fn lemma_closed_holds_reachable(g: Seq<Seq<Edge>>, c: Map<Node, Weight>, w: Seq<Node>)
    requires
        w.len() >= 1,
        is_walk(g, w),
        c.contains_key(w[0]),
        forall|u: Node| #[trigger] c.contains_key(u) ==> closed_at(g, c, u),
    ensures
        c.contains_key(w.last()),
    decreases w.len(),
{
    if w.len() > 1 {
        let v = w.drop_last();
        assert(is_walk(g, v)) by {
            assert forall|i: int| 0 < i < v.len() implies has_edge_spec(g, v[i - 1], #[trigger] v[i]) by {
                assert(w[i] == v[i]);
            }
        }
        lemma_closed_holds_reachable(g, c, v);
        let i = w.len() - 1;
        assert(has_edge_spec(g, w[i - 1], w[i]));
        let u = w[i - 1];
        assert(c.contains_key(u));
        assert(closed_at(g, c, u));
        let k = choose|k: int| 0 <= k < g[u.0 as int].len() && (#[trigger] g[u.0 as int][k]).node == w[i];
        assert(c.contains_key(g[u.0 as int][k].node));
    }
}

} // verus!
