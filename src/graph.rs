use vstd::prelude::*;

use crate::{edge, Edge, Node, Weight};

verus! {

/// `edges` holds an edge that leads to `b`.
pub open spec fn leads_to(edges: Seq<Edge>, b: Node) -> bool {
    exists|k: int| 0 <= k < edges.len() && (#[trigger] edges[k]).node == b
}

/// Every edge leads to a node of the graph, and no list holds two edges to
/// the same node.
pub open spec fn lists_wf(g: Seq<Seq<Edge>>) -> bool {
    &&& forall|a: int, k: int|
        0 <= a < g.len() && 0 <= k < g[a].len() ==> (#[trigger] g[a][k]).node.0 < g.len()
    &&& forall|a: int, k: int, l: int|
        0 <= a < g.len() && 0 <= k < l < g[a].len() ==> (#[trigger] g[a][k]).node != (
        #[trigger] g[a][l]).node
}

/// The graph holds a directed edge from `a` to `b`.
pub open spec fn has_edge_spec(g: Seq<Seq<Edge>>, a: Node, b: Node) -> bool {
    a.0 < g.len() && b.0 < g.len() && leads_to(g[a.0 as int], b)
}

/// A growable directed graph: for each node, the list of its outgoing edges.
pub struct AdjacencyList {
    nodes: Vec<Vec<Edge>>,
}

impl View for AdjacencyList {
    type V = Seq<Seq<Edge>>;

    closed spec fn view(&self) -> Seq<Seq<Edge>> {
        self.nodes@.map_values(|v: Vec<Edge>| v@)
    }
}

impl Clone for AdjacencyList {
    fn clone(&self) -> (r: Self)
        ensures
            r@ == self@,
    {
        let mut nodes: Vec<Vec<Edge>> = Vec::with_capacity(self.nodes.len());
        let mut i: usize = 0;
        while i < self.nodes.len()
            invariant
                i <= self.nodes@.len(),
                nodes@.len() == i,
                forall|j: int| 0 <= j < i ==> (#[trigger] nodes@[j])@ == self.nodes@[j]@,
            decreases self.nodes@.len() - i,
        {
            let src = &self.nodes[i];
            let mut list: Vec<Edge> = Vec::with_capacity(src.len());
            let mut k: usize = 0;
            while k < src.len()
                invariant
                    k <= src@.len(),
                    list@ == src@.subrange(0, k as int),
                decreases src@.len() - k,
            {
                list.push(src[k]);
                k = k + 1;
                assert(list@ =~= src@.subrange(0, k as int));
            }
            assert(list@ =~= src@);
            nodes.push(list);
            i = i + 1;
        }
        let r = AdjacencyList { nodes };
        assert(r@ =~= self@);
        r
    }
}

impl AdjacencyList {
    pub open spec fn wf(&self) -> bool {
        lists_wf(self@)
    }

    pub fn new() -> (g: Self)
        ensures
            g.wf(),
            g@ == Seq::<Seq<Edge>>::empty(),
    {
        Self::with_capacity(0)
    }

    /// An empty graph with room for `cap` nodes.
    pub fn with_capacity(cap: usize) -> (g: Self)
        ensures
            g.wf(),
            g@ == Seq::<Seq<Edge>>::empty(),
    {
        let g = AdjacencyList { nodes: Vec::with_capacity(cap) };
        assert(g@ =~= Seq::<Seq<Edge>>::empty());
        g
    }

    /// Adds a node without edges; its index is the number of nodes before.
    pub fn add_node(&mut self) -> (n: Node)
        requires
            old(self).wf(),
        ensures
            final(self).wf(),
            n.0 == old(self)@.len(),
            final(self)@ == old(self)@.push(Seq::<Edge>::empty()),
    {
        let n = Node(self.nodes.len());
        self.nodes.push(Vec::new());
        assert(self@ =~= old(self)@.push(Seq::<Edge>::empty()));
        n
    }

    pub fn is_valid(&self, n: Node) -> (r: bool)
        ensures
            r == (n.0 < self@.len()),
    {
        n.0 < self.nodes.len()
    }

    /// Adds the edge `a -> b` of weight `c`, unless the graph holds an edge
    /// from `a` to `b` already: then the graph is left as it is.
    pub fn add_edge(&mut self, a: Node, b: Node, c: Weight)
        requires
            old(self).wf(),
            a.0 < old(self)@.len(),
            b.0 < old(self)@.len(),
        ensures
            final(self).wf(),
            has_edge_spec(old(self)@, a, b) ==> final(self)@ == old(self)@,
            !has_edge_spec(old(self)@, a, b) ==> final(self)@ == old(self)@.update(
                a.0 as int,
                old(self)@[a.0 as int].push((Edge { node: b, weight: c })),
            ),
    {
        if self.has_directed_edge_unchecked(a, b) {
            return;
        }
        let mut list = Vec::new();
        std::mem::swap(&mut list, &mut self.nodes[a.0]);
        list.push(edge(b, c));
        std::mem::swap(&mut list, &mut self.nodes[a.0]);
        assert(self@ =~= old(self)@.update(a.0 as int, old(self)@[a.0 as int].push(Edge { node: b, weight: c })));
    }

    fn has_directed_edge_unchecked(&self, a: Node, b: Node) -> (r: bool)
        requires
            a.0 < self@.len(),
        ensures
            r == leads_to(self@[a.0 as int], b),
    {
        let list = &self.nodes[a.0];
        let ghost s = self@[a.0 as int];
        assert(list@ == s);
        let mut i: usize = 0;
        while i < list.len()
            invariant
                i <= list@.len(),
                list@ == s,
                a.0 < self@.len(),
                s == self@[a.0 as int],
                forall|k: int| 0 <= k < i ==> (#[trigger] s[k]).node != b,
            decreases list@.len() - i,
        {
            let found = list[i].node == b;
            if found {
                assert(list@[i as int].node == b);
                assert(s[i as int].node == b);
                return true;
            }
            i = i + 1;
        }
        false
    }

    /// Whether the graph holds the edge `a -> b`; false for a node outside it.
    pub fn has_edge(&self, a: Node, b: Node) -> (r: bool)
        ensures
            r == has_edge_spec(self@, a, b),
    {
        if !self.is_valid(a) || !self.is_valid(b) {
            return false;
        }
        if self.has_directed_edge_unchecked(a, b) {
            return true;
        }
        false
    }

    /// The outgoing edges of `n`.
    pub fn edges(&self, n: Node) -> (r: &[Edge])
        requires
            n.0 < self@.len(),
        ensures
            r@ == self@[n.0 as int],
    {
        self.nodes[n.0].as_slice()
    }

    /// Removes the edge `a -> b` and returns it; the last edge of `a` takes
    /// its place in the list.
    pub fn remove_edge(&mut self, a: Node, b: Node) -> (r: Option<Edge>)
        requires
            old(self).wf(),
            a.0 < old(self)@.len(),
        ensures
            final(self).wf(),
            r is None <==> !leads_to(old(self)@[a.0 as int], b),
            r is None ==> final(self)@ == old(self)@,
            final(self)@.len() == old(self)@.len(),
            forall|x: int| 0 <= x < old(self)@.len() && x != a.0 ==> final(self)@[x] == old(self)@[x],
            forall|x: Node|
                has_edge_spec(final(self)@, a, x) <==> (has_edge_spec(old(self)@, a, x) && x != b),
            r is Some ==> exists|k: int|
                0 <= k < old(self)@[a.0 as int].len() && #[trigger] old(self)@[a.0 as int][k].node
                    == b && r == Some(old(self)@[a.0 as int][k]) && final(self)@ == old(self)@.update(
                    a.0 as int,
                    old(self)@[a.0 as int].update(k, old(self)@[a.0 as int].last()).drop_last(),
                ),
    {
        let mut list = Vec::new();
        std::mem::swap(&mut list, &mut self.nodes[a.0]);
        let ghost s = old(self)@[a.0 as int];
        assert(list@ == s);
        let mut i: usize = 0;
        while i < list.len()
            invariant
                i <= list@.len(),
                list@ == s,
                forall|k: int| 0 <= k < i ==> (#[trigger] s[k]).node != b,
            ensures
                i <= list@.len(),
                list@ == s,
                forall|k: int| 0 <= k < i ==> (#[trigger] s[k]).node != b,
                i < list@.len() ==> s[i as int].node == b,
            decreases list@.len() - i,
        {
            if list[i].node == b {
                break;
            }
            i = i + 1;
        }
        if i == list.len() {
            std::mem::swap(&mut list, &mut self.nodes[a.0]);
            assert(self@ =~= old(self)@);
            return None;
        }
        assert(s[i as int].node == b);
        let e = list.swap_remove(i);
        let ghost t = list@;
        std::mem::swap(&mut list, &mut self.nodes[a.0]);
        proof {
            assert(self@ =~= old(self)@.update(a.0 as int, s.update(i as int, s.last()).drop_last()));
            assert(old(self)@[a.0 as int][i as int].node == b);
            let g = self@;
            let og = old(self)@;
            assert forall|x: int, k: int, l: int|
                0 <= x < g.len() && 0 <= k < l < g[x].len() implies (#[trigger] g[x][k]).node != (
            #[trigger] g[x][l]).node by {
                if x == a.0 {
                    let kk = if k == i { s.len() - 1 } else { k };
                    let ll = if l == i { s.len() - 1 } else { l };
                    assert(g[x][k] == og[x][kk]);
                    assert(g[x][l] == og[x][ll]);
                }
            }
            let t = g[a.0 as int];
            let last = s.len() - 1;
            assert forall|x: Node| leads_to(t, x) <==> (leads_to(s, x) && x != b) by {
                if leads_to(t, x) {
                    let k = choose|k: int| 0 <= k < t.len() && (#[trigger] t[k]).node == x;
                    let kk = if k == i { last } else { k };
                    assert(t[k] == s[kk]);
                    assert(kk != i);
                }
                if leads_to(s, x) && x != b {
                    let k = choose|k: int| 0 <= k < s.len() && (#[trigger] s[k]).node == x;
                    assert(k != i);
                    if k == last {
                        assert(t[i as int] == s[k]);
                    } else {
                        assert(t[k] == s[k]);
                    }
                }
            }
            assert forall|x: int, k: int|
                0 <= x < g.len() && 0 <= k < g[x].len() implies (#[trigger] g[x][k]).node.0 < g.len() by {
                if x == a.0 {
                    let kk = if k == i { s.len() - 1 } else { k };
                    assert(g[x][k] == og[x][kk]);
                }
            }
        }
        Some(e)
    }

    /// Removes every outgoing edge of `n` and returns them.
    pub fn clear_edges(&mut self, n: Node) -> (r: Vec<Edge>)
        requires
            old(self).wf(),
            n.0 < old(self)@.len(),
        ensures
            final(self).wf(),
            r@ == old(self)@[n.0 as int],
            final(self)@ == old(self)@.update(n.0 as int, Seq::<Edge>::empty()),
    {
        let mut list = Vec::new();
        std::mem::swap(&mut list, &mut self.nodes[n.0]);
        assert(self@ =~= old(self)@.update(n.0 as int, Seq::<Edge>::empty()));
        list
    }

    /// Every node of the graph, in ascending order.
    pub fn nodes(&self) -> (r: Vec<Node>)
        ensures
            r@.len() == self@.len(),
            forall|i: int| 0 <= i < r@.len() ==> (#[trigger] r@[i]).0 == i,
    {
        let mut r: Vec<Node> = Vec::with_capacity(self.nodes.len());
        let mut i: usize = 0;
        while i < self.nodes.len()
            invariant
                i <= self@.len(),
                self@.len() == self.nodes@.len(),
                r@.len() == i,
                forall|j: int| 0 <= j < i ==> (#[trigger] r@[j]).0 == j,
            decreases self@.len() - i,
        {
            r.push(Node(i));
            i = i + 1;
        }
        r
    }

    /// The number of nodes.
    pub fn len(&self) -> (r: usize)
        ensures
            r == self@.len(),
    {
        self.nodes.len()
    }

    pub fn is_empty(&self) -> (r: bool)
        ensures
            r == (self@.len() == 0),
    {
        self.nodes.len() == 0
    }

    /// The graph with every edge turned around, each of weight 1. Each list
    /// holds its sources in ascending order.
    pub fn inverted(&self) -> (r: Self)
        requires
            self.wf(),
        ensures
            r.wf(),
            r@.len() == self@.len(),
            forall|a: Node, b: Node| has_edge_spec(r@, b, a) <==> has_edge_spec(self@, a, b),
            forall|b: int, k: int|
                0 <= b < r@.len() && 0 <= k < r@[b].len() ==> (#[trigger] r@[b][k]).weight == 1,
            forall|b: int, k: int, l: int|
                0 <= b < r@.len() && 0 <= k < l < r@[b].len() ==> (#[trigger] r@[b][k]).node.0 < (
                #[trigger] r@[b][l]).node.0,
    {
        let mut out = Self::new();
        out.nodes.reserve(self.nodes.len());
        let len = self.len();
        let mut i: usize = 0;
        while i < len
            invariant
                len == self@.len(),
                i <= len,
                out.wf(),
                out@.len() == i,
                forall|b: int| 0 <= b < i ==> (#[trigger] out@[b]).len() == 0,
            decreases len - i,
        {
            out.add_node();
            i = i + 1;
        }
        let mut i: usize = 0;
        while i < len
            invariant
                self.wf(),
                len == self@.len(),
                i <= len,
                out.wf(),
                out@.len() == len,
                forall|b: int, k: int|
                    0 <= b < len && 0 <= k < out@[b].len() ==> (#[trigger] out@[b][k]).weight == 1
                        && out@[b][k].node.0 < i,
                forall|b: int, k: int, l: int|
                    0 <= b < len && 0 <= k < l < out@[b].len() ==> (#[trigger] out@[b][k]).node.0 < (
                    #[trigger] out@[b][l]).node.0,
                forall|a: Node, b: Node|
                    has_edge_spec(out@, b, a) <==> (a.0 < i && has_edge_spec(self@, a, b)),
            decreases len - i,
        {
            let n = Node(i);
            let edges = self.edges(n);
            let mut k: usize = 0;
            while k < edges.len()
                invariant
                    self.wf(),
                    len == self@.len(),
                    i < len,
                    n == Node(i),
                    edges@ == self@[i as int],
                    k <= edges@.len(),
                    out.wf(),
                    out@.len() == len,
                    forall|b: int, j: int|
                        0 <= b < len && 0 <= j < out@[b].len() ==> (#[trigger] out@[b][j]).weight
                            == 1 && out@[b][j].node.0 <= i,
                    forall|b: int, j: int|
                        0 <= b < len && 0 <= j < out@[b].len() && out@[b][j].node.0 == i ==> exists|
                            m: int,
                        |
                            0 <= m < k && (#[trigger] edges@[m]).node.0 == b,
                    forall|b: int, j: int, l: int|
                        0 <= b < len && 0 <= j < l < out@[b].len() ==> (#[trigger] out@[b][j]).node.0
                            < (#[trigger] out@[b][l]).node.0,
                    forall|a: Node, b: Node|
                        has_edge_spec(out@, b, a) <==> ((a.0 < i && has_edge_spec(self@, a, b)) || (
                        a.0 == i && b.0 < len && exists|m: int|
                            0 <= m < k && (#[trigger] edges@[m]).node == b)),
                decreases edges@.len() - k,
            {
                let e = edges[k];
                let ghost before = out@;
                proof {
                    assert(self@[i as int][k as int] == e);
                    assert(e.node.0 < len);
                    let b0 = e.node.0 as int;
                    assert(!has_edge_spec(before, e.node, n)) by {
                        if has_edge_spec(before, e.node, n) {
                            let j = choose|j: int|
                                0 <= j < before[b0].len() && (#[trigger] before[b0][j]).node == n;
                            assert(before[b0][j].node.0 == i);
                            let m = choose|m: int| 0 <= m < k && (#[trigger] edges@[m]).node.0 == b0;
                            assert(self@[i as int][m] == edges@[m]);
                            assert(self@[i as int][k as int] == edges@[k as int]);
                        }
                    }
                }
                out.add_edge(e.node, n, 1);
                proof {
                    let b0 = e.node.0 as int;
                    assert(out@ == before.update(b0, before[b0].push(Edge { node: n, weight: 1 })));
                    assert forall|b: int, j: int|
                        0 <= b < len && 0 <= j < out@[b].len() && out@[b][j].node.0 == i implies exists|
                            m: int,
                        |
                            0 <= m < k + 1 && (#[trigger] edges@[m]).node.0 == b by {
                        if b == b0 && j == before[b0].len() {
                            assert(edges@[k as int].node.0 == b);
                        } else {
                            assert(out@[b][j] == before[b][j]);
                            let m = choose|m: int| 0 <= m < k && (#[trigger] edges@[m]).node.0 == b;
                            assert(edges@[m].node.0 == b);
                        }
                    }
                    assert forall|b: int, j: int, l: int|
                        0 <= b < len && 0 <= j < l < out@[b].len() implies (#[trigger] out@[b][j]).node.0
                            < (#[trigger] out@[b][l]).node.0 by {
                        if b == b0 && l == before[b0].len() {
                            assert(out@[b][j] == before[b][j]);
                            if before[b][j].node.0 == i {
                                let m = choose|m: int| 0 <= m < k && (#[trigger] edges@[m]).node.0 == b;
                                assert(self@[i as int][m] == edges@[m]);
                                assert(self@[i as int][k as int] == edges@[k as int]);
                            }
                        } else {
                            assert(out@[b][j] == before[b][j]);
                            assert(out@[b][l] == before[b][l]);
                        }
                    }
                    assert forall|a: Node, b: Node|
                        has_edge_spec(out@, b, a) <==> ((a.0 < i && has_edge_spec(self@, a, b)) || (
                        a.0 == i && b.0 < len && exists|m: int|
                            0 <= m < k + 1 && (#[trigger] edges@[m]).node == b)) by {
                        assert(has_edge_spec(before, b, a) <==> ((a.0 < i && has_edge_spec(self@, a, b))
                            || (a.0 == i && b.0 < len && exists|m: int|
                            0 <= m < k && (#[trigger] edges@[m]).node == b)));
                        if a.0 == i {
                            assert(a == n);
                        }
                        if b.0 < len && b.0 != b0 {
                            assert(out@[b.0 as int] == before[b.0 as int]);
                            if exists|m: int| 0 <= m < k + 1 && (#[trigger] edges@[m]).node == b {
                                let m = choose|m: int| 0 <= m < k + 1 && (#[trigger] edges@[m]).node == b;
                                assert(m != k);
                                assert(exists|m: int| 0 <= m < k && (#[trigger] edges@[m]).node == b);
                            }
                        }
                        if b.0 == b0 {
                            assert(b == e.node);
                            assert(edges@[k as int].node == b);
                            let s = before[b0];
                            let t = out@[b0];
                            if leads_to(t, a) && a != n {
                                let j = choose|j: int| 0 <= j < t.len() && (#[trigger] t[j]).node == a;
                                assert(t[j] == s[j]);
                            }
                            if leads_to(s, a) {
                                let j = choose|j: int| 0 <= j < s.len() && (#[trigger] s[j]).node == a;
                                assert(t[j] == s[j]);
                            }
                            if a == n {
                                assert(t[s.len() as int].node == n);
                            }
                        }
                        if a.0 == i && b.0 < len && exists|m: int|
                            0 <= m < k + 1 && (#[trigger] edges@[m]).node == b {
                            let m = choose|m: int| 0 <= m < k + 1 && (#[trigger] edges@[m]).node == b;
                            if m < k {
                            } else {
                                assert(b == e.node);
                            }
                        }
                    }
                }
                k = k + 1;
            }
            proof {
                assert forall|a: Node, b: Node|
                    has_edge_spec(out@, b, a) <==> (a.0 < i + 1 && has_edge_spec(self@, a, b)) by {
                    if a.0 == i {
                        if has_edge_spec(self@, a, b) {
                            let m = choose|m: int|
                                0 <= m < self@[i as int].len() && (#[trigger] self@[i as int][m]).node
                                    == b;
                            assert(edges@[m].node == b);
                        }
                        if b.0 < len && exists|m: int|
                            0 <= m < k && (#[trigger] edges@[m]).node == b {
                            let m = choose|m: int| 0 <= m < k && (#[trigger] edges@[m]).node == b;
                            assert(self@[i as int][m].node == b);
                        }
                    }
                }
            }
            i = i + 1;
        }
        out
    }
}

} // verus!
