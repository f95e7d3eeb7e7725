use vstd::prelude::*;

use crate::{
    closed_at, has_weighted_edge, is_path, is_simple, is_walk, lemma_closed_holds_reachable,
    lemma_empty_unreachable, lemma_path_reachable, reachable, AdjacencyList, Edge, Node, NodeMap,
    Path, Weight,
};

verus! {

/// Where the outgoing edges of one node lie in the flat edge array.
#[derive(Debug, Clone, Copy)]
struct NodeInfo {
    offset: usize,
    len: usize,
}

/// A read-only graph: every edge in one array, each node's edges contiguous.
pub struct ImmutableAdjacencyList {
    node_data: Vec<Edge>,
    node_info: Vec<NodeInfo>,
}

impl View for ImmutableAdjacencyList {
    type V = Seq<Seq<Edge>>;

    closed spec fn view(&self) -> Seq<Seq<Edge>> {
        Seq::new(
            self.node_info@.len(),
            |i: int|
                self.node_data@.subrange(
                    self.node_info@[i].offset as int,
                    self.node_info@[i].offset + self.node_info@[i].len,
                ),
        )
    }
}

/// The number of edges out of the first `n` nodes of `g`.
pub open spec fn edges_before(g: Seq<Seq<Edge>>, n: int) -> int
    decreases n,
{
    if n <= 0 {
        0
    } else {
        edges_before(g, n - 1) + g[n - 1].len()
    }
}

impl ImmutableAdjacencyList {
    /// The flat array that holds every edge.
    pub closed spec fn edge_array(&self) -> Seq<Edge> {
        self.node_data@
    }

    /// Where the edges of node `i` begin in the flat array.
    pub closed spec fn offset_of(&self, i: int) -> int {
        self.node_info@[i].offset as int
    }

    /// How many edges leave node `i`.
    pub closed spec fn count_of(&self, i: int) -> int {
        self.node_info@[i].len as int
    }

    /// Every node's range lies inside the edge array.
    pub closed spec fn wf(&self) -> bool {
        forall|i: int|
            0 <= i < self.node_info@.len() ==> (#[trigger] self.node_info@[i]).offset
                + self.node_info@[i].len <= self.node_data@.len()
    }

    /// The outgoing edges of `n`.
    pub fn edges(&self, n: Node) -> (r: &[Edge])
        requires
            self.wf(),
            n.0 < self@.len(),
        ensures
            r@ == self@[n.0 as int],
    {
        let info = self.node_info[n.0];
        let data_len = self.node_data.len();
        assert(info.offset + info.len <= data_len);
        vstd::slice::slice_subrange(self.node_data.as_slice(), info.offset, info.offset + info.len)
    }

    /// The number of nodes.
    pub fn len(&self) -> (r: usize)
        ensures
            r == self@.len(),
    {
        self.node_info.len()
    }

    pub fn is_empty(&self) -> (r: bool)
        ensures
            r == (self@.len() == 0),
    {
        self.len() == 0
    }
}

/// Flattens `g`: one array holds every edge, node after node in ascending
/// order, each node's edges in list order; a node's edges begin after those of
/// all nodes before it.
pub fn lock_graph(g: &AdjacencyList) -> (r: ImmutableAdjacencyList)
    ensures
        r.wf(),
        r@ == g@,
        r.edge_array().len() == edges_before(g@, g@.len() as int),
        forall|i: int|
            0 <= i < g@.len() ==> {
                &&& #[trigger] r.offset_of(i) == edges_before(g@, i)
                &&& r.count_of(i) == g@[i].len()
                &&& r.edge_array().subrange(r.offset_of(i), r.offset_of(i) + r.count_of(i)) == g@[i]
            },
{
    let n = g.len();
    let mut total: usize = 0;
    let mut i: usize = 0;
    while i < n
        invariant
            i <= n,
            n == g@.len(),
        decreases n - i,
    {
        total = total.saturating_add(g.edges(Node(i)).len());
        i = i + 1;
    }
    let mut node_data: Vec<Edge> = Vec::with_capacity(total);
    let mut node_info: Vec<NodeInfo> = Vec::with_capacity(n);
    let mut i: usize = 0;
    while i < n
        invariant
            i <= n,
            n == g@.len(),
            node_info@.len() == i,
            node_data@.len() == edges_before(g@, i as int),
            forall|j: int|
                0 <= j < i ==> (#[trigger] node_info@[j]).offset == edges_before(g@, j)
                    && node_info@[j].len == g@[j].len(),
            forall|j: int|
                0 <= j < i ==> (#[trigger] node_info@[j]).offset + node_info@[j].len
                    <= node_data@.len(),
            forall|j: int|
                0 <= j < i ==> node_data@.subrange(
                    node_info@[j].offset as int,
                    node_info@[j].offset + node_info@[j].len,
                ) == #[trigger] g@[j],
        decreases n - i,
    {
        let edges = g.edges(Node(i));
        let offset = node_data.len();
        let ghost before = node_data@;
        node_data.extend_from_slice(edges);
        proof {
            assert(node_data@.subrange(0, before.len() as int) =~= before);
            assert forall|j: int| 0 <= j < i implies node_data@.subrange(
                node_info@[j].offset as int,
                node_info@[j].offset + node_info@[j].len,
            ) == #[trigger] g@[j] by {
                assert(node_data@.subrange(
                    node_info@[j].offset as int,
                    node_info@[j].offset + node_info@[j].len,
                ) =~= before.subrange(
                    node_info@[j].offset as int,
                    node_info@[j].offset + node_info@[j].len,
                ));
            }
            assert(node_data@.subrange(offset as int, offset + edges@.len()) =~= g@[i as int]);
        }
        node_info.push(NodeInfo { offset, len: edges.len() });
        i = i + 1;
        assert(node_info@[i - 1].offset == edges_before(g@, i - 1));
    }
    let r = ImmutableAdjacencyList { node_data, node_info };
    assert(r@ =~= g@);
    r
}

/// A locked graph with the scratch state of a search, kept from one search to
/// the next so that a search allocates nothing up front.
pub struct AStarAcceleration {
    graph: ImmutableAdjacencyList,
    node_cost: NodeMap<Weight>,
    parents: NodeMap<Edge>,
    queue: Vec<Edge>,
}

impl AStarAcceleration {
    /// The locked graph is well formed: ranges inside the edge array, edges
    /// to nodes of the graph, no two edges from one node to another.
    pub closed spec fn wf(&self) -> bool {
        &&& self.graph.wf()
        &&& crate::lists_wf(self.graph@)
    }

    /// The graph that searches run on.
    pub closed spec fn graph(&self) -> Seq<Seq<Edge>> {
        self.graph@
    }

    /// The cost found so far of each node a search has reached.
    pub closed spec fn costs(&self) -> Map<Node, Weight> {
        self.node_cost@
    }

    /// The parent link of each node a search has reached: its parent and the
    /// weight of the edge from it.
    pub closed spec fn parent_links(&self) -> Map<Node, Edge> {
        self.parents@
    }

    /// The queue of a search: each entry a node and its priority.
    pub closed spec fn frontier(&self) -> Seq<Edge> {
        self.queue@
    }

    /// The scratch state holds nothing: no cost, no parent link, an empty
    /// queue.
    pub open spec fn is_clear(&self) -> bool {
        &&& self.costs() == Map::<Node, Weight>::empty()
        &&& self.parent_links() == Map::<Node, Edge>::empty()
        &&& self.frontier() == Seq::<Edge>::empty()
    }

    /// Everything a search reads: the graph and the scratch state.
    pub open spec fn state(&self) -> (
        Seq<Seq<Edge>>,
        Map<Node, Weight>,
        Map<Node, Edge>,
        Seq<Edge>,
    ) {
        (self.graph(), self.costs(), self.parent_links(), self.frontier())
    }

    /// Locks `g` and allocates scratch space for its nodes.
    pub fn new(g: &AdjacencyList) -> (r: Self)
        requires
            g.wf(),
        ensures
            r.wf(),
            r.graph() == g@,
            r.is_clear(),
    {
        let len = g.len();
        AStarAcceleration {
            graph: lock_graph(g),
            node_cost: NodeMap::with_capacity(len),
            parents: NodeMap::with_capacity(len),
            queue: Vec::with_capacity(len),
        }
    }

    /// Empties the scratch state; the graph and the storage stay.
    pub fn clear_transients(&mut self)
        requires
            old(self).wf(),
        ensures
            final(self).wf(),
            final(self).graph() == old(self).graph(),
            final(self).is_clear(),
    {
        self.node_cost.clear();
        self.parents.clear();
        self.queue.clear();
    }
}

} // verus!

verus! {

/// `q` holds an entry for `v`.
spec fn in_queue(q: Seq<Edge>, v: Node) -> bool {
    exists|i: int| 0 <= i < q.len() && (#[trigger] q[i]).node == v
}

/// No two entries of `q` are for the same node.
spec fn distinct_nodes(q: Seq<Edge>) -> bool {
    forall|i: int, j: int| 0 <= i < j < q.len() ==> (#[trigger] q[i]).node != (#[trigger] q[j]).node
}

/// `a` leaves the queue no later than `b`: it has the lower priority, or the
/// same priority and the lower node index.
spec fn pops_before(a: Edge, b: Edge) -> bool {
    a.weight < b.weight || (a.weight == b.weight && a.node.0 <= b.node.0)
}

/// Whether `q` holds an entry for `n`.
fn queue_has(q: &Vec<Edge>, n: Node) -> (r: bool)
    ensures
        r == in_queue(q@, n),
{
    let mut i: usize = 0;
    while i < q.len()
        invariant
            i <= q@.len(),
            forall|j: int| 0 <= j < i ==> (#[trigger] q@[j]).node != n,
        decreases q@.len() - i,
    {
        if q[i].node == n {
            assert(q@[i as int].node == n);
            return true;
        }
        i = i + 1;
    }
    false
}

/// Takes out the entry that pops first: lowest priority, ties to the lowest
/// node index.
fn pop_min(q: &mut Vec<Edge>) -> (r: Option<Edge>)
    ensures
        r is None <==> old(q)@.len() == 0,
        r is None ==> final(q)@ == old(q)@,
        r matches Some(e) ==> {
            &&& final(q)@.len() == old(q)@.len() - 1
            &&& in_queue(old(q)@, e.node)
            &&& forall|j: int| 0 <= j < old(q)@.len() ==> pops_before(e, #[trigger] old(q)@[j])
            &&& distinct_nodes(old(q)@) ==> distinct_nodes(final(q)@)
            &&& distinct_nodes(old(q)@) ==> forall|v: Node|
                #[trigger] in_queue(final(q)@, v) <==> (in_queue(old(q)@, v) && v != e.node)
        },
{
    if q.len() == 0 {
        return None;
    }
    let mut best: usize = 0;
    let mut i: usize = 1;
    while i < q.len()
        invariant
            1 <= i <= q@.len(),
            best < q@.len(),
            forall|j: int| 0 <= j < i ==> pops_before(q@[best as int], #[trigger] q@[j]),
        decreases q@.len() - i,
    {
        let a = q[i];
        let b = q[best];
        if a.weight < b.weight || (a.weight == b.weight && a.node.0 < b.node.0) {
            best = i;
        }
        i = i + 1;
    }
    let ghost old_q = q@;
    let e = q.swap_remove(best);
    proof {
        let nq = q@;
        assert(old_q[best as int].node == e.node);
        if distinct_nodes(old_q) {
            let last = old_q.len() - 1;
            assert forall|x: int, y: int| 0 <= x < y < nq.len() implies (#[trigger] nq[x]).node != (
            #[trigger] nq[y]).node by {
                let xx = if x == best { last } else { x };
                let yy = if y == best { last } else { y };
                assert(nq[x] == old_q[xx]);
                assert(nq[y] == old_q[yy]);
            }
            assert forall|v: Node| #[trigger] in_queue(nq, v) <==> (in_queue(old_q, v) && v
                != e.node) by {
                if in_queue(nq, v) {
                    let x = choose|x: int| 0 <= x < nq.len() && (#[trigger] nq[x]).node == v;
                    let xx = if x == best { last } else { x };
                    assert(nq[x] == old_q[xx]);
                    assert(old_q[xx].node == v);
                }
                if in_queue(old_q, v) && v != e.node {
                    let x = choose|x: int| 0 <= x < old_q.len() && (#[trigger] old_q[x]).node == v;
                    assert(x != best);
                    if x == last {
                        assert(nq[best as int] == old_q[x]);
                    } else {
                        assert(nq[x] == old_q[x]);
                    }
                }
            }
        }
    }
    Some(e)
}

/// An accelerator that has served earlier searches, once cleared (as each
/// search begins by doing), is in the same state as one freshly built from
/// the same graph.
pub proof fn lemma_reset_matches_fresh(used: &AStarAcceleration, fresh: &AStarAcceleration)
    requires
        used.graph() == fresh.graph(),
        used.is_clear(),
        fresh.is_clear(),
    ensures
        used.state() == fresh.state(),
{
}

/// The search's record of costs and parents: every node with a cost but the
/// start has a parent, each parent link is an edge of `g`, and going to the
/// parent lowers the pair (cost, time of the last cost update).
spec fn tree_inv(
    g: Seq<Seq<Edge>>,
    start: Node,
    c: Map<Node, Weight>,
    p: Map<Node, Edge>,
    stamp: Map<Node, nat>,
    clock: nat,
) -> bool {
    &&& c.contains_key(start)
    &&& c[start] == 0
    &&& !p.contains_key(start)
    &&& forall|v: Node| #[trigger]
        c.contains_key(v) ==> v.0 < g.len() && stamp.contains_key(v) && stamp[v] < clock
    &&& forall|v: Node| #[trigger] c.contains_key(v) && v != start ==> p.contains_key(v)
    &&& forall|v: Node| #[trigger]
        p.contains_key(v) ==> {
            &&& c.contains_key(v)
            &&& c.contains_key(p[v].node)
            &&& has_weighted_edge(g, p[v].node, Edge { node: v, weight: p[v].weight })
            &&& ranked_below(c, stamp, p[v].node, v)
        }
}

spec fn ranked_below(c: Map<Node, Weight>, stamp: Map<Node, nat>, u: Node, v: Node) -> bool {
    c[u] < c[v] || (c[u] == c[v] && stamp[u] < stamp[v])
}

/// The queue holds each node once, only nodes with a cost, and `end` as soon
/// as it has a cost.
spec fn queue_inv(c: Map<Node, Weight>, q: Seq<Edge>, end: Node) -> bool {
    &&& distinct_nodes(q)
    &&& forall|v: Node| #[trigger] in_queue(q, v) ==> c.contains_key(v)
    &&& c.contains_key(end) ==> in_queue(q, end)
}

/// What is left to improve: the sum over the nodes of their costs, counting
/// a node without a cost above any cost.
spec fn potential(c: Map<Node, Weight>, n: nat) -> int
    decreases n,
{
    if n == 0 {
        0
    } else {
        potential(c, (n - 1) as nat) + cost_term(c, Node((n - 1) as usize))
    }
}

spec fn cost_term(c: Map<Node, Weight>, v: Node) -> int {
    if c.contains_key(v) {
        c[v] as int
    } else {
        u64::MAX + 1
    }
}

proof fn lemma_potential_nonneg(c: Map<Node, Weight>, n: nat)
    ensures
        potential(c, n) >= 0,
    decreases n,
{
    if n > 0 {
        lemma_potential_nonneg(c, (n - 1) as nat);
    }
}

proof fn lemma_potential_lower(c: Map<Node, Weight>, v: Node, t: Weight, n: nat)
    requires
        n <= usize::MAX + 1,
        t < cost_term(c, v),
    ensures
        v.0 < n ==> potential(c.insert(v, t), n) == potential(c, n) - (cost_term(c, v) - t),
        v.0 >= n ==> potential(c.insert(v, t), n) == potential(c, n),
    decreases n,
{
    if n > 0 {
        lemma_potential_lower(c, v, t, (n - 1) as nat);
    }
}

/// Lowering the cost of `child` to `t` through the edge `cur -> child`, with
/// `cur` as its new parent, keeps the tree invariant.
proof fn lemma_relax(
    g: Seq<Seq<Edge>>,
    start: Node,
    c: Map<Node, Weight>,
    p: Map<Node, Edge>,
    stamp: Map<Node, nat>,
    clock: nat,
    cur: Node,
    child: Node,
    w: Weight,
    t: Weight,
)
    requires
        tree_inv(g, start, c, p, stamp, clock),
        c.contains_key(cur),
        c[cur] <= t,
        child.0 < g.len(),
        c.contains_key(child) ==> t < c[child],
        has_weighted_edge(g, cur, Edge { node: child, weight: w }),
    ensures
        child != start,
        child != cur,
        tree_inv(
            g,
            start,
            c.insert(child, t),
            p.insert(child, Edge { node: cur, weight: w }),
            stamp.insert(child, clock),
            clock + 1,
        ),
{
    let c2 = c.insert(child, t);
    let p2 = p.insert(child, Edge { node: cur, weight: w });
    let s2 = stamp.insert(child, clock);
    assert forall|v: Node| #[trigger] p2.contains_key(v) implies {
        &&& c2.contains_key(v)
        &&& c2.contains_key(p2[v].node)
        &&& has_weighted_edge(g, p2[v].node, Edge { node: v, weight: p2[v].weight })
        &&& ranked_below(c2, s2, p2[v].node, v)
    } by {
        if v != child {
            assert(p.contains_key(v));
            assert(ranked_below(c, stamp, p[v].node, v));
            assert(c.contains_key(p[v].node));
            assert(stamp[p[v].node] < clock);
        }
    }
}

/// Each entry of `p` after the first is reached through its recorded parent
/// link: `parents` maps its node to the node of the entry before it, with this
/// entry's weight.
pub open spec fn follows_parents(parents: Map<Node, Edge>, p: Seq<Edge>) -> bool {
    forall|j: int|
        0 < j < p.len() ==> parents.contains_key((#[trigger] p[j]).node) && parents[p[j].node] == (
        Edge { node: p[j - 1].node, weight: p[j].weight })
}

/// Each entry of `rev` but the last is reached, by its recorded parent link,
/// from the node of the entry after it.
#[verifier::opaque]
spec fn parent_chain(parents: Map<Node, Edge>, rev: Seq<Edge>) -> bool {
    forall|i: int|
        0 < i < rev.len() ==> parents.contains_key(rev[i - 1].node) && parents[rev[i - 1].node] == (
        Edge { node: (#[trigger] rev[i]).node, weight: rev[i - 1].weight })
}

proof fn lemma_chain_push(parents: Map<Node, Edge>, rev: Seq<Edge>, e: Edge)
    requires
        parent_chain(parents, rev),
        rev.len() > 0 ==> parents.contains_key(rev.last().node) && parents[rev.last().node] == (
        Edge { node: e.node, weight: rev.last().weight }),
    ensures
        parent_chain(parents, rev.push(e)),
{
    reveal(parent_chain);
    let r2 = rev.push(e);
    assert forall|i: int| 0 < i < r2.len() implies parents.contains_key(r2[i - 1].node)
        && parents[r2[i - 1].node] == (Edge { node: (#[trigger] r2[i]).node, weight: r2[i - 1].weight }) by {
        if i < rev.len() {
            assert(r2[i - 1] == rev[i - 1]);
            assert(r2[i] == rev[i]);
        } else {
            assert(r2[i - 1] == rev.last());
        }
    }
}

proof fn lemma_chain_reversed(parents: Map<Node, Edge>, rev: Seq<Edge>, path: Seq<Edge>)
    requires
        parent_chain(parents, rev),
        path.len() == rev.len(),
        forall|j: int| 0 <= j < path.len() ==> path[j] == rev[rev.len() - 1 - j],
    ensures
        follows_parents(parents, path),
{
    reveal(parent_chain);
    let l = rev.len() as int;
    assert forall|j: int| 0 < j < path.len() implies parents.contains_key((#[trigger] path[j]).node)
        && parents[path[j].node] == (Edge { node: path[j - 1].node, weight: path[j].weight }) by {
        assert(path[j - 1] == rev[l - j]);
        assert(path[j] == rev[l - 1 - j]);
        assert(rev[(l - j) - 1] == rev[l - 1 - j]);
    }
}

/// Follows the parent links back from `end` to `start` and returns the path
/// they trace, from `start` to `end`: the parent chain of `end`, reversed, with
/// `(start, 0)` in front. The chain cannot break: by the search's invariant
/// every node with a cost but the start has a parent with a cost, and the pair
/// (cost, time of the last cost update) falls at each step, so the walk
/// reaches `start`.
fn walk_backwards(
    start: &Node,
    end: &Node,
    parents: &NodeMap<Edge>,
    Ghost(g): Ghost<Seq<Seq<Edge>>>,
    Ghost(c): Ghost<Map<Node, Weight>>,
    Ghost(stamp): Ghost<Map<Node, nat>>,
    Ghost(clock): Ghost<nat>,
) -> (r: Path)
    requires
        tree_inv(g, *start, c, parents@, stamp, clock),
        c.contains_key(*end),
        *end != *start,
    ensures
        is_path(g, *start, *end, r@),
        is_simple(r@),
        follows_parents(parents@, r@),
{
    let mut child = *end;
    let mut rev: Vec<Edge> = Vec::new();
    proof {
        reveal(parent_chain);
    }
    loop
        invariant_except_break
            c.contains_key(child),
            child != *start,
            rev@.len() == 0 ==> child == *end,
            rev@.len() > 0 ==> rev@[0].node == *end && has_weighted_edge(g, child, rev@.last()),
            forall|i: int| 0 <= i < rev@.len() ==> ranked_below(c, stamp, child, #[trigger] rev@[i].node),
            rev@.len() > 0 ==> parents@.contains_key(rev@.last().node) && parents@[rev@.last().node]
                == (Edge { node: child, weight: rev@.last().weight }),
        invariant
            tree_inv(g, *start, c, parents@, stamp, clock),
            parent_chain(parents@, rev@),
            forall|i: int, j: int|
                0 <= i < j < rev@.len() ==> ranked_below(c, stamp, (#[trigger] rev@[j]).node, (
                #[trigger] rev@[i]).node),
            forall|i: int|
                0 < i < rev@.len() ==> has_weighted_edge(g, (#[trigger] rev@[i]).node, rev@[i - 1]),
        ensures
            rev@.len() >= 2,
            rev@.last() == (Edge { node: *start, weight: 0 }),
            rev@[0].node == *end,
            parent_chain(parents@, rev@),
            forall|i: int|
                0 < i < rev@.len() ==> has_weighted_edge(g, (#[trigger] rev@[i]).node, rev@[i - 1]),
            forall|i: int, j: int|
                0 <= i < j < rev@.len() ==> ranked_below(c, stamp, (#[trigger] rev@[j]).node, (
                #[trigger] rev@[i]).node),
        decreases c[child], stamp[child],
    {
        let pe = *parents.get(&child).unwrap();
        assert(parents@.contains_key(child) && parents@[child] == pe);
        let ghost before = rev@;
        rev.push(Edge { node: child, weight: pe.weight });
        proof {
            assert(ranked_below(c, stamp, pe.node, child));
            assert forall|i: int, j: int|
                0 <= i < j < rev@.len() implies ranked_below(c, stamp, (#[trigger] rev@[j]).node, (
                #[trigger] rev@[i]).node) by {
                if j == before.len() {
                    assert(rev@[i] == before[i]);
                } else {
                    assert(rev@[i] == before[i] && rev@[j] == before[j]);
                }
            }
            assert forall|i: int| 0 <= i < rev@.len() implies ranked_below(c, stamp, pe.node, #[trigger] rev@[i].node) by {
                if i < before.len() {
                    assert(rev@[i] == before[i]);
                }
            }
            lemma_chain_push(parents@, before, Edge { node: child, weight: pe.weight });
        }
        child = pe.node;
        if child == *start {
            let ghost mid = rev@;
            rev.push(Edge { node: *start, weight: 0 });
            proof {
                lemma_chain_push(parents@, mid, Edge { node: *start, weight: 0 });
                assert forall|i: int, j: int|
                    0 <= i < j < rev@.len() implies ranked_below(c, stamp, (#[trigger] rev@[j]).node, (
                    #[trigger] rev@[i]).node) by {
                    if j == mid.len() {
                        assert(rev@[i] == mid[i]);
                    } else {
                        assert(rev@[i] == mid[i] && rev@[j] == mid[j]);
                    }
                }
            }
            break;
        }
    }
    let mut path: Path = Vec::with_capacity(rev.len());
    let mut i: usize = rev.len();
    while i > 0
        invariant
            i <= rev@.len(),
            path@.len() == rev@.len() - i,
            forall|j: int| 0 <= j < path@.len() ==> path@[j] == rev@[rev@.len() - 1 - j],
        decreases i,
    {
        i = i - 1;
        path.push(rev[i]);
    }
    proof {
        let l = rev@.len() as int;
        assert forall|j: int| 0 < j < path@.len() implies has_weighted_edge(
            g,
            path@[j - 1].node,
            #[trigger] path@[j],
        ) by {
            assert(path@[j - 1] == rev@[l - j]);
            assert(path@[j] == rev@[l - 1 - j]);
            assert(has_weighted_edge(g, rev@[l - j].node, rev@[l - j - 1]));
        }
        assert(path@[0] == rev@[l - 1]);
        assert(path@.last() == rev@[0]);
        lemma_chain_reversed(parents@, rev@, path@);
        assert forall|i: int, j: int| 0 <= i < j < path@.len() implies (#[trigger] path@[i]).node
            != (#[trigger] path@[j]).node by {
            assert(path@[i] == rev@[l - 1 - i]);
            assert(path@[j] == rev@[l - 1 - j]);
            assert(ranked_below(c, stamp, rev@[l - 1 - i].node, rev@[l - 1 - j].node));
        }
    }
    path
}

} // verus!

verus! {

proof fn lemma_push(q: Seq<Edge>, e: Edge)
    requires
        distinct_nodes(q),
        !in_queue(q, e.node),
    ensures
        distinct_nodes(q.push(e)),
        forall|v: Node| #[trigger] in_queue(q.push(e), v) <==> (in_queue(q, v) || v == e.node),
{
    let q2 = q.push(e);
    assert forall|i: int, j: int| 0 <= i < j < q2.len() implies (#[trigger] q2[i]).node != (
    #[trigger] q2[j]).node by {
        if j == q.len() {
            assert(q[i] == q2[i]);
        } else {
            assert(q[i] == q2[i] && q[j] == q2[j]);
        }
    }
    assert forall|v: Node| #[trigger] in_queue(q2, v) <==> (in_queue(q, v) || v == e.node) by {
        if in_queue(q2, v) && v != e.node {
            let i = choose|i: int| 0 <= i < q2.len() && (#[trigger] q2[i]).node == v;
            assert(q[i] == q2[i]);
        }
        if in_queue(q, v) {
            let i = choose|i: int| 0 <= i < q.len() && (#[trigger] q[i]).node == v;
            assert(q[i] == q2[i]);
        }
        if v == e.node {
            assert(q2[q.len() as int] == e);
        }
    }
}

/// Estimates, for a search, the cost left from a node to its goal.
pub trait HeuristicDistance {
    fn cost(&self, node: &Node) -> Weight;
}

/// Searches `acc`'s graph for a path from `start` to `end`, expanding first
/// the node of least cost so far plus `heuristic` estimate, ties to the lower
/// node index. There is no path when `start == end`, nor in a graph without
/// nodes. Costs and priorities stop growing at `u64::MAX`.
pub fn a_star<H: HeuristicDistance>(
    acc: &mut AStarAcceleration,
    start: Node,
    end: Node,
    heuristic: H,
) -> (r: Option<Path>)
    requires
        old(acc).wf(),
        old(acc).graph().len() == 0 || (start.0 < old(acc).graph().len() && end.0 < old(
            acc,
        ).graph().len()),
    ensures
        final(acc).wf(),
        final(acc).graph() == old(acc).graph(),
        start == end ==> r is None,
        r is Some <==> (start != end && reachable(old(acc).graph(), start, end)),
        r matches Some(p) ==> is_path(old(acc).graph(), start, end, p@) && is_simple(p@),
{
    acc.clear_transients();
    let ghost g = acc.graph@;
    if acc.graph.is_empty() || start == end {
        proof {
            if g.len() == 0 && start != end {
                lemma_empty_unreachable(g, start, end);
            }
        }
        return None;
    }
    let n = acc.graph.len();
    acc.node_cost.insert(start, 0);
    acc.queue.push(Edge { node: start, weight: 0 });
    let ghost mut stamp: Map<Node, nat> = Map::empty().insert(start, 0nat);
    let ghost mut clock: nat = 1;
    proof {
        assert(acc.queue@[0].node == start);
        assert(in_queue(acc.queue@, start));
        assert forall|v: Node| #[trigger] in_queue(acc.queue@, v) implies acc.node_cost@.contains_key(
            v,
        ) by {
            let i = choose|i: int| 0 <= i < acc.queue@.len() && (#[trigger] acc.queue@[i]).node == v;
        }
    }
    loop
        invariant
            acc.wf(),
            acc.graph@ == g,
            g == old(acc).graph(),
            n == g.len(),
            start.0 < n,
            end.0 < n,
            start != end,
            tree_inv(g, start, acc.node_cost@, acc.parents@, stamp, clock),
            queue_inv(acc.node_cost@, acc.queue@, end),
            forall|u: Node|
                #[trigger] acc.node_cost@.contains_key(u) && !in_queue(acc.queue@, u) ==> closed_at(
                    g,
                    acc.node_cost@,
                    u,
                ),
        decreases 2 * potential(acc.node_cost@, n as nat) + acc.queue@.len(),
    {
        let ghost m0 = 2 * potential(acc.node_cost@, n as nat) + acc.queue@.len();
        let popped = pop_min(&mut acc.queue);
        let cur = match popped {
            None => {
                proof {
                    let c = acc.node_cost@;
                    assert forall|u: Node| #[trigger] c.contains_key(u) implies closed_at(g, c, u) by {
                        assert(!in_queue(acc.queue@, u));
                    }
                    if reachable(g, start, end) {
                        let w = choose|w: Seq<Node>|
                            w.len() >= 1 && w[0] == start && w.last() == end && #[trigger] is_walk(
                                g,
                                w,
                            );
                        lemma_closed_holds_reachable(g, c, w);
                        assert(in_queue(acc.queue@, end));
                    }
                }
                return None;
            },
            Some(e) => e.node,
        };
        if cur == end {
            let path = walk_backwards(
                &start,
                &end,
                &acc.parents,
                Ghost(g),
                Ghost(acc.node_cost@),
                Ghost(stamp),
                Ghost(clock),
            );
            proof {
                lemma_path_reachable(g, start, end, path@);
            }
            return Some(path);
        }
        let cur_cost = *acc.node_cost.get(&cur).unwrap();
        let edges = acc.graph.edges(cur);
        let mut k: usize = 0;
        while k < edges.len()
            invariant
                acc.wf(),
                acc.graph@ == g,
                n == g.len(),
                start.0 < n,
                end.0 < n,
                start != end,
                cur.0 < n,
                cur != end,
                edges@ == g[cur.0 as int],
                k <= edges@.len(),
                acc.node_cost@.contains_key(cur),
                acc.node_cost@[cur] == cur_cost,
                !in_queue(acc.queue@, cur),
                tree_inv(g, start, acc.node_cost@, acc.parents@, stamp, clock),
                queue_inv(acc.node_cost@, acc.queue@, end),
                forall|u: Node|
                    #[trigger] acc.node_cost@.contains_key(u) && !in_queue(acc.queue@, u) && u
                        != cur ==> closed_at(g, acc.node_cost@, u),
                forall|j: int| 0 <= j < k ==> acc.node_cost@.contains_key(#[trigger] edges@[j].node),
                2 * potential(acc.node_cost@, n as nat) + acc.queue@.len() < m0,
            decreases edges@.len() - k,
        {
            let e = edges[k];
            let child = e.node;
            let tentative = cur_cost.saturating_add(e.weight);
            let improve = match acc.node_cost.get(&child) {
                None => true,
                Some(c) => tentative < *c,
            };
            if improve {
                let ghost c0 = acc.node_cost@;
                let ghost q0 = acc.queue@;
                proof {
                    assert(g[cur.0 as int][k as int] == e);
                    assert(has_weighted_edge(g, cur, Edge { node: child, weight: e.weight }));
                    lemma_relax(
                        g,
                        start,
                        acc.node_cost@,
                        acc.parents@,
                        stamp,
                        clock,
                        cur,
                        child,
                        e.weight,
                        tentative,
                    );
                    lemma_potential_lower(acc.node_cost@, child, tentative, n as nat);
                }
                acc.node_cost.insert(child, tentative);
                acc.parents.insert(child, Edge { node: cur, weight: e.weight });
                proof {
                    stamp = stamp.insert(child, clock);
                    clock = clock + 1;
                }
                if !queue_has(&acc.queue, child) {
                    let h = heuristic.cost(&child);
                    proof {
                        lemma_push(acc.queue@, Edge { node: child, weight: tentative.saturating_add(h) });
                    }
                    acc.queue.push(Edge { node: child, weight: tentative.saturating_add(h) });
                }
                proof {
                    let c = acc.node_cost@;
                    let q = acc.queue@;
                    assert(in_queue(q, child));
                    assert forall|v: Node| #[trigger] in_queue(q, v) implies c.contains_key(v) by {
                        if v != child {
                            assert(in_queue(q0, v));
                        }
                    }
                    assert forall|u: Node|
                        #[trigger] c.contains_key(u) && !in_queue(q, u) && u != cur implies closed_at(
                        g,
                        c,
                        u,
                    ) by {
                        assert(u != child);
                        assert(!in_queue(q0, u));
                        assert(c0.contains_key(u));
                        assert(closed_at(g, c0, u));
                    }
                    assert forall|j: int| 0 <= j < k + 1 implies c.contains_key(
                        #[trigger] edges@[j].node,
                    ) by {
                        if j < k {
                            assert(c0.contains_key(edges@[j].node));
                        }
                    }
                }
            }
            k = k + 1;
        }
        proof {
            lemma_potential_nonneg(acc.node_cost@, n as nat);
            let c = acc.node_cost@;
            assert(closed_at(g, c, cur)) by {
                assert forall|j: int| 0 <= j < g[cur.0 as int].len() implies c.contains_key(
                    #[trigger] g[cur.0 as int][j].node,
                ) by {
                    assert(edges@[j] == g[cur.0 as int][j]);
                }
            }
        }
    }
}

} // verus!

verus! {

/// Locks `g` and searches it once: `a_star` on a fresh accelerator.
pub fn shortest_path<H: HeuristicDistance>(
    g: &AdjacencyList,
    start: Node,
    end: Node,
    heuristic: H,
) -> (r: Option<Path>)
    requires
        g.wf(),
        g@.len() == 0 || (start.0 < g@.len() && end.0 < g@.len()),
    ensures
        start == end ==> r is None,
        r is Some <==> (start != end && reachable(g@, start, end)),
        r matches Some(p) ==> is_path(g@, start, end, p@) && is_simple(p@),
{
    let mut acc = AStarAcceleration::new(g);
    a_star(&mut acc, start, end, heuristic)
}

} // verus!
