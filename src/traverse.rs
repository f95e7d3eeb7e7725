use vstd::prelude::*;

use crate::set::lemma_distinct_nodes_len;
use crate::{has_edge_spec, is_walk, lists_wf, AdjacencyList, Edge, Node, NodeSet};

verus! {

/// Some edge of `g` leads to `n`.
pub open spec fn has_incoming(g: Seq<Seq<Edge>>, n: Node) -> bool {
    exists|a: Node| #[trigger] has_edge_spec(g, a, n)
}

/// The nodes that no edge leads to, in ascending order.
pub fn compute_roots(g: &AdjacencyList) -> (r: Vec<Node>)
    requires
        g.wf(),
    ensures
        forall|i: int, j: int| 0 <= i < j < r@.len() ==> r@[i].0 < r@[j].0,
        forall|n: Node| r@.contains(n) <==> (n.0 < g@.len() && !has_incoming(g@, n)),
{
    let len = g.len();
    let mut roots: NodeSet = NodeSet::with_capacity(len);
    let mut i: usize = 0;
    while i < len
        invariant
            len == g@.len(),
            i <= len,
            roots@ == Set::new(|n: Node| n.0 < i),
        decreases len - i,
    {
        roots.add(Node(i));
        i = i + 1;
        assert(roots@ =~= Set::new(|n: Node| n.0 < i));
    }
    let mut i: usize = 0;
    while i < len
        invariant
            g.wf(),
            len == g@.len(),
            i <= len,
            roots@ == Set::new(
                |n: Node| n.0 < len && !exists|a: Node| a.0 < i && #[trigger] has_edge_spec(g@, a, n),
            ),
        decreases len - i,
    {
        let edges = g.edges(Node(i));
        let mut k: usize = 0;
        while k < edges.len()
            invariant
                len == g@.len(),
                i < len,
                k <= edges@.len(),
                edges@ == g@[i as int],
                roots@ == Set::new(
                    |n: Node|
                        n.0 < len && !(exists|a: Node| a.0 < i && #[trigger] has_edge_spec(g@, a, n))
                            && !(exists|m: int| 0 <= m < k && (#[trigger] edges@[m]).node == n),
                ),
            decreases edges@.len() - k,
        {
            let ghost before = roots@;
            roots.remove(edges[k].node);
            proof {
                let target = Set::new(
                    |n: Node|
                        n.0 < len && !(exists|a: Node| a.0 < i && #[trigger] has_edge_spec(g@, a, n))
                            && !(exists|m: int| 0 <= m < k + 1 && (#[trigger] edges@[m]).node == n),
                );
                assert forall|n: Node| roots@.contains(n) <==> target.contains(n) by {
                    if exists|m: int| 0 <= m < k + 1 && (#[trigger] edges@[m]).node == n {
                        let m = choose|m: int| 0 <= m < k + 1 && (#[trigger] edges@[m]).node == n;
                        if m < k {
                            assert(!before.contains(n));
                        }
                    }
                }
                assert(roots@ =~= target);
            }
            k = k + 1;
        }
        proof {
            let target = Set::new(
                |n: Node|
                    n.0 < len && !exists|a: Node| a.0 < i + 1 && #[trigger] has_edge_spec(g@, a, n),
            );
            assert forall|n: Node| roots@.contains(n) <==> target.contains(n) by {
                let a = Node(i);
                if has_edge_spec(g@, a, n) {
                    let m = choose|m: int|
                        0 <= m < g@[i as int].len() && (#[trigger] g@[i as int][m]).node == n;
                    assert(edges@[m].node == n);
                }
                if exists|m: int| 0 <= m < k && (#[trigger] edges@[m]).node == n {
                    let m = choose|m: int| 0 <= m < k && (#[trigger] edges@[m]).node == n;
                    assert(g@[i as int][m].node == n);
                }
                if exists|a: Node| a.0 < i + 1 && #[trigger] has_edge_spec(g@, a, n) {
                    let a2 = choose|a2: Node| a2.0 < i + 1 && #[trigger] has_edge_spec(g@, a2, n);
                    if a2.0 == i {
                        assert(a2 == a);
                    }
                }
            }
            assert(roots@ =~= target);
        }
        i = i + 1;
    }
    let r = roots.to_vec();
    proof {
        assert forall|n: Node| r@.contains(n) <==> (n.0 < g@.len() && !has_incoming(g@, n)) by {
            if has_incoming(g@, n) {
                let a = choose|a: Node| #[trigger] has_edge_spec(g@, a, n);
                assert(a.0 < len);
            }
        }
    }
    r
}

} // verus!

verus! {

/// The visit record of a traversal: `out` lists the nodes of `visited`, each
/// once, in the order they were visited, and all are nodes of the graph.
pub open spec fn visit_inv(len: nat, visited: Set<Node>, out: Seq<Node>) -> bool {
    &&& forall|v: Node| visited.contains(v) <==> out.contains(v)
    &&& out.no_duplicates()
    &&& forall|k: int| 0 <= k < out.len() ==> (#[trigger] out[k]).0 < len
}

/// Records `x` as visited, if it was not yet; tells whether it was new.
fn visit(x: Node, len: usize, visited: &mut NodeSet, out: &mut Vec<Node>) -> (new: bool)
    requires
        x.0 < len,
        visit_inv(len as nat, old(visited)@, old(out)@),
    ensures
        visit_inv(len as nat, final(visited)@, final(out)@),
        final(visited)@ == old(visited)@.insert(x),
        new == !old(visited)@.contains(x),
        new ==> final(out)@ == old(out)@.push(x),
        !new ==> final(out)@ == old(out)@,
{
    let new = visited.add(x);
    if new {
        out.push(x);
        proof {
            assert forall|v: Node| visited@.contains(v) <==> out@.contains(v) by {
                if v == x {
                    assert(out@[out@.len() - 1] == x);
                }
                if out@.contains(v) && v != x {
                    let k = choose|k: int| 0 <= k < out@.len() && out@[k] == v;
                    assert(old(out)@[k] == v);
                }
                if old(out)@.contains(v) {
                    let k = choose|k: int| 0 <= k < old(out)@.len() && old(out)@[k] == v;
                    assert(out@[k] == v);
                }
            }
            assert forall|k: int| 0 <= k < out@.len() implies (#[trigger] out@[k]).0 < len by {
                if k < old(out)@.len() {
                    assert(out@[k] == old(out)@[k]);
                }
            }
        }
    }
    new
}

/// Node `out[k]` is reached by an edge from a node before it, or every node
/// numbered below it comes before it.
pub open spec fn reached_at(g: Seq<Seq<Edge>>, out: Seq<Node>, k: int) -> bool {
    (exists|j: int| 0 <= j < k && has_edge_spec(g, out[j], out[k])) || (forall|m: Node|
        m.0 < out[k].0 ==> out.subrange(0, k).contains(m))
}

/// Each node of `out` is reached by an edge from a node visited before it,
/// or is the lowest-numbered node not visited before it.
pub open spec fn reached_in_order(g: Seq<Seq<Edge>>, out: Seq<Node>) -> bool {
    forall|k: int| 0 <= k < out.len() ==> #[trigger] reached_at(g, out, k)
}

/// Every entry of `q` is `root`, or has an edge into it from a node of `out`.
spec fn queued_from(g: Seq<Seq<Edge>>, out: Seq<Node>, q: Seq<Node>, root: Node) -> bool {
    forall|k: int|
        0 <= k < q.len() ==> (#[trigger] q[k]) == root || exists|j: int|
            0 <= j < out.len() && has_edge_spec(g, out[j], q[k])
}

proof fn lemma_reached_push(g: Seq<Seq<Edge>>, out: Seq<Node>, x: Node)
    requires
        reached_in_order(g, out),
        (exists|j: int| 0 <= j < out.len() && has_edge_spec(g, out[j], x)) || (forall|m: Node|
            m.0 < x.0 ==> out.contains(m)),
    ensures
        reached_in_order(g, out.push(x)),
{
    let o2 = out.push(x);
    assert forall|k: int| 0 <= k < o2.len() implies #[trigger] reached_at(g, o2, k) by {
        assert(o2.subrange(0, k) =~= out.subrange(0, k) || k == out.len());
        if k < out.len() {
            assert(reached_at(g, out, k));
            assert(o2.subrange(0, k) =~= out.subrange(0, k));
            if exists|j: int| 0 <= j < k && has_edge_spec(g, out[j], out[k]) {
                let j = choose|j: int| 0 <= j < k && has_edge_spec(g, out[j], out[k]);
                assert(o2[j] == out[j] && o2[k] == out[k]);
            }
        } else {
            assert(o2.subrange(0, k) =~= out);
            if exists|j: int| 0 <= j < out.len() && has_edge_spec(g, out[j], x) {
                let j = choose|j: int| 0 <= j < out.len() && has_edge_spec(g, out[j], x);
                assert(o2[j] == out[j]);
            }
        }
    }
}

proof fn lemma_queued_grow_out(g: Seq<Seq<Edge>>, out: Seq<Node>, x: Node, q: Seq<Node>, root: Node)
    requires
        queued_from(g, out, q, root),
    ensures
        queued_from(g, out.push(x), q, root),
{
    assert forall|k: int| 0 <= k < q.len() implies (#[trigger] q[k]) == root || exists|j: int|
        0 <= j < out.push(x).len() && has_edge_spec(g, out.push(x)[j], q[k]) by {
        if q[k] != root {
            let j = choose|j: int| 0 <= j < out.len() && has_edge_spec(g, out[j], q[k]);
            assert(out.push(x)[j] == out[j]);
        }
    }
}

proof fn lemma_queued_sub(g: Seq<Seq<Edge>>, out: Seq<Node>, q: Seq<Node>, root: Node, lo: int, hi: int)
    requires
        queued_from(g, out, q, root),
        0 <= lo <= hi <= q.len(),
    ensures
        queued_from(g, out, q.subrange(lo, hi), root),
{
    assert forall|k: int| 0 <= k < hi - lo implies (#[trigger] q.subrange(lo, hi)[k]) == root
        || exists|j: int| 0 <= j < out.len() && has_edge_spec(g, out[j], q.subrange(lo, hi)[k]) by {
        assert(q.subrange(lo, hi)[k] == q[lo + k]);
    }
}

proof fn lemma_queued_push(g: Seq<Seq<Edge>>, out: Seq<Node>, q: Seq<Node>, root: Node, j: int, c: Node)
    requires
        queued_from(g, out, q, root),
        0 <= j < out.len(),
        has_edge_spec(g, out[j], c),
    ensures
        queued_from(g, out, q.push(c), root),
{
    assert forall|k: int| 0 <= k < q.push(c).len() implies (#[trigger] q.push(c)[k]) == root
        || exists|i: int| 0 <= i < out.len() && has_edge_spec(g, out[i], q.push(c)[k]) by {
        if k < q.len() {
            assert(q.push(c)[k] == q[k]);
        }
    }
}

/// Every node of `g`, each once, in breadth-first order: from each node not
/// yet visited, in ascending order, the nodes it reaches, nearest first. Each
/// node is reached by an edge from a node listed before it, or is the
/// lowest-numbered node not listed before it.
pub fn bfs(g: &AdjacencyList) -> (r: Vec<Node>)
    requires
        g.wf(),
    ensures
        r@.no_duplicates(),
        forall|n: Node| r@.contains(n) <==> n.0 < g@.len(),
        reached_in_order(g@, r@),
{
    let mut out: Vec<Node> = Vec::new();
    if g.is_empty() {
        return out;
    }
    let len = g.len();
    let mut queue: std::collections::VecDeque<Node> = std::collections::VecDeque::new();
    let mut visited = NodeSet::with_capacity(len);
    let mut i: usize = 0;
    while i < len
        invariant
            g.wf(),
            len == g@.len(),
            i <= len,
            visit_inv(len as nat, visited@, out@),
            forall|v: Node| v.0 < i ==> #[trigger] visited@.contains(v),
            queue@.len() == 0,
            reached_in_order(g@, out@),
        decreases len - i,
    {
        let n = Node(i);
        if !visited.has(n) {
            queue.push_back(n);
            assert(queue@[0] == n);
            assert(queued_from(g@, out@, queue@, n));
            loop
                invariant
                    g.wf(),
                    len == g@.len(),
                    i < len,
                    n == Node(i),
                    visit_inv(len as nat, visited@, out@),
                    forall|v: Node| v.0 < i ==> #[trigger] visited@.contains(v),
                    forall|k: int| 0 <= k < queue@.len() ==> (#[trigger] queue@[k]).0 < len,
                    visited@.contains(n) || queue@.contains(n),
                    reached_in_order(g@, out@),
                    queued_from(g@, out@, queue@, n),
                ensures
                    visit_inv(len as nat, visited@, out@),
                    forall|v: Node| v.0 <= i ==> #[trigger] visited@.contains(v),
                    queue@.len() == 0,
                    reached_in_order(g@, out@),
                decreases len - out@.len(), queue@.len(),
            {
                proof {
                    lemma_distinct_nodes_len(out@, len as nat);
                }
                let ghost q0 = queue@;
                match queue.pop_front() {
                    None => {
                        break;
                    },
                    Some(x) => {
                        let ghost rest = queue@;
                        proof {
                            assert(x.0 < len);
                            assert forall|j: int| 0 <= j < rest.len() implies (#[trigger] rest[j]).0 < len by {
                                assert(rest[j] == q0[j + 1]);
                            }
                            if q0.contains(n) && x != n {
                                let j = choose|j: int| 0 <= j < q0.len() && q0[j] == n;
                                assert(rest[j - 1] == n);
                            }
                            lemma_queued_sub(g@, out@, q0, n, 1, q0.len() as int);
                            assert(rest == q0.subrange(1, q0.len() as int));
                            assert(q0[0] == x);
                        }
                        if !visited.has(x) {
                            let ghost out0 = out@;
                            proof {
                                if x == n {
                                    assert forall|m: Node| m.0 < x.0 implies out0.contains(m) by {
                                        assert(visited@.contains(m));
                                    }
                                }
                                lemma_reached_push(g@, out0, x);
                                lemma_queued_grow_out(g@, out0, x, rest, n);
                            }
                            visit(x, len, &mut visited, &mut out);
                            let ghost out1 = out@;
                            proof {
                                lemma_distinct_nodes_len(out@, len as nat);
                                assert(out1 == out0.push(x));
                            }
                            let edges = g.edges(x);
                            let mut k: usize = 0;
                            while k < edges.len()
                                invariant
                                    g.wf(),
                                    len == g@.len(),
                                    x.0 < len,
                                    edges@ == g@[x.0 as int],
                                    k <= edges@.len(),
                                    queue@.len() == rest.len() + k,
                                    queue@.subrange(0, rest.len() as int) == rest,
                                    forall|j: int| 0 <= j < queue@.len() ==> (#[trigger] queue@[j]).0 < len,
                                    out@ == out1,
                                    out1.len() > 0,
                                    out1[out1.len() - 1] == x,
                                    queued_from(g@, out1, queue@, n),
                                decreases edges@.len() - k,
                            {
                                proof {
                                    assert(g@[x.0 as int][k as int] == edges@[k as int]);
                                }
                                let ghost qb = queue@;
                                queue.push_back(edges[k].node);
                                proof {
                                    assert(has_edge_spec(g@, out1[out1.len() - 1], edges@[k as int].node));
                                    lemma_queued_push(g@, out1, qb, n, out1.len() - 1, edges@[k as int].node);
                                    assert(queue@.subrange(0, rest.len() as int) =~= qb.subrange(
                                        0,
                                        rest.len() as int,
                                    ));
                                }
                                k = k + 1;
                            }
                            proof {
                                if rest.contains(n) {
                                    let j = choose|j: int| 0 <= j < rest.len() && rest[j] == n;
                                    assert(queue@.subrange(0, rest.len() as int)[j] == n);
                                    assert(queue@[j] == n);
                                }
                            }
                        }
                    },
                }
            }
        }
        i = i + 1;
    }
    out
}

} // verus!

verus! {

/// Visits, depth first, what `n` reaches and was not visited yet.
fn dfs_at_impl(
    g: &AdjacencyList,
    n: Node,
    queue: &mut std::collections::VecDeque<Node>,
    visited: &mut NodeSet,
    out: &mut Vec<Node>,
)
    requires
        g.wf(),
        n.0 < g@.len(),
        visit_inv(g@.len(), old(visited)@, old(out)@),
        forall|m: Node| m.0 < n.0 ==> #[trigger] old(visited)@.contains(m),
        reached_in_order(g@, old(out)@),
    ensures
        visit_inv(g@.len(), final(visited)@, final(out)@),
        reached_in_order(g@, final(out)@),
        forall|v: Node| old(visited)@.contains(v) ==> #[trigger] final(visited)@.contains(v),
        final(visited)@.contains(n),
{
    let len = g.len();
    queue.clear();
    queue.push_back(n);
    assert(queue@[0] == n);
    assert(queued_from(g@, out@, queue@, n));
    loop
        invariant
            g.wf(),
            len == g@.len(),
            n.0 < len,
            visit_inv(len as nat, visited@, out@),
            forall|v: Node| old(visited)@.contains(v) ==> #[trigger] visited@.contains(v),
            forall|k: int| 0 <= k < queue@.len() ==> (#[trigger] queue@[k]).0 < len,
            visited@.contains(n) || queue@.contains(n),
            forall|m: Node| m.0 < n.0 ==> #[trigger] old(visited)@.contains(m),
            reached_in_order(g@, out@),
            queued_from(g@, out@, queue@, n),
        ensures
            visit_inv(len as nat, visited@, out@),
            forall|v: Node| old(visited)@.contains(v) ==> #[trigger] visited@.contains(v),
            visited@.contains(n),
            reached_in_order(g@, out@),
        decreases len - out@.len(), queue@.len(),
    {
        proof {
            lemma_distinct_nodes_len(out@, len as nat);
        }
        let ghost q0 = queue@;
        match queue.pop_back() {
            None => {
                break;
            },
            Some(x) => {
                let ghost rest = queue@;
                proof {
                    assert(x.0 < len);
                    assert forall|j: int| 0 <= j < rest.len() implies (#[trigger] rest[j]).0 < len by {
                        assert(rest[j] == q0[j]);
                    }
                    if q0.contains(n) && x != n {
                        let j = choose|j: int| 0 <= j < q0.len() && q0[j] == n;
                        assert(rest[j] == n);
                    }
                    lemma_queued_sub(g@, out@, q0, n, 0, q0.len() - 1);
                    assert(rest == q0.subrange(0, q0.len() - 1));
                    assert(q0[q0.len() - 1] == x);
                }
                let ghost out0 = out@;
                proof {
                    if x == n {
                        assert forall|m: Node| m.0 < x.0 implies out0.contains(m) by {
                            assert(old(visited)@.contains(m));
                            assert(visited@.contains(m));
                        }
                    }
                    lemma_reached_push(g@, out0, x);
                    lemma_queued_grow_out(g@, out0, x, rest, n);
                }
                let new = visit(x, len, visited, out);
                if new {
                    let ghost out1 = out@;
                    proof {
                        lemma_distinct_nodes_len(out@, len as nat);
                        assert(out1 == out0.push(x));
                    }
                    let edges = g.edges(x);
                    let mut k: usize = 0;
                    while k < edges.len()
                        invariant
                            g.wf(),
                            len == g@.len(),
                            x.0 < len,
                            edges@ == g@[x.0 as int],
                            k <= edges@.len(),
                            queue@.len() == rest.len() + k,
                            queue@.subrange(0, rest.len() as int) == rest,
                            forall|j: int| 0 <= j < queue@.len() ==> (#[trigger] queue@[j]).0 < len,
                            out@ == out1,
                            out1.len() > 0,
                            out1[out1.len() - 1] == x,
                            queued_from(g@, out1, queue@, n),
                        decreases edges@.len() - k,
                    {
                        proof {
                            assert(g@[x.0 as int][k as int] == edges@[k as int]);
                        }
                        let ghost qb = queue@;
                        queue.push_back(edges[k].node);
                        proof {
                            assert(has_edge_spec(g@, out1[out1.len() - 1], edges@[k as int].node));
                            lemma_queued_push(g@, out1, qb, n, out1.len() - 1, edges@[k as int].node);
                            assert(queue@.subrange(0, rest.len() as int) =~= qb.subrange(
                                0,
                                rest.len() as int,
                            ));
                        }
                        k = k + 1;
                    }
                    proof {
                        if rest.contains(n) {
                            let j = choose|j: int| 0 <= j < rest.len() && rest[j] == n;
                            assert(queue@.subrange(0, rest.len() as int)[j] == n);
                            assert(queue@[j] == n);
                        }
                    }
                }
            },
        }
    }
}

/// Every node of `g`, each once, in depth-first order: from each node not
/// yet visited, in ascending order, the nodes it reaches, the edge added
/// last explored first. Each node is reached by an edge from a node listed
/// before it, or is the lowest-numbered node not listed before it.
pub fn dfs(g: &AdjacencyList) -> (r: Vec<Node>)
    requires
        g.wf(),
    ensures
        r@.no_duplicates(),
        forall|n: Node| r@.contains(n) <==> n.0 < g@.len(),
        reached_in_order(g@, r@),
{
    let mut out: Vec<Node> = Vec::new();
    if g.is_empty() {
        return out;
    }
    let len = g.len();
    let mut queue: std::collections::VecDeque<Node> = std::collections::VecDeque::new();
    let mut visited = NodeSet::new();
    let mut i: usize = 0;
    while i < len
        invariant
            g.wf(),
            len == g@.len(),
            i <= len,
            visit_inv(len as nat, visited@, out@),
            forall|v: Node| v.0 < i ==> #[trigger] visited@.contains(v),
            reached_in_order(g@, out@),
        decreases len - i,
    {
        let n = Node(i);
        if !visited.has(n) {
            dfs_at_impl(g, n, &mut queue, &mut visited, &mut out);
        }
        i = i + 1;
    }
    out
}

} // verus!

verus! {

/// The state of the topological sort: `o` holds the edges out of the nodes
/// not output yet, `i` is `o` turned around, and a node waits in `roots` or
/// is output only once nothing leads to it in `i`.
pub open spec fn topsort_inv(
    g: Seq<Seq<Edge>>,
    o: Seq<Seq<Edge>>,
    i: Seq<Seq<Edge>>,
    roots: Seq<Node>,
    out: Seq<Node>,
) -> bool {
    &&& lists_wf(g)
    &&& lists_wf(o)
    &&& lists_wf(i)
    &&& o.len() == g.len()
    &&& i.len() == g.len()
    &&& forall|v: Node|
        v.0 < g.len() ==> (#[trigger] out.contains(v) ==> o[v.0 as int].len() == 0) && (
        !out.contains(v) ==> o[v.0 as int] == g[v.0 as int])
    &&& out.no_duplicates()
    &&& roots.no_duplicates()
    &&& forall|k: int| 0 <= k < out.len() ==> (#[trigger] out[k]).0 < g.len()
    &&& forall|k: int| 0 <= k < roots.len() ==> (#[trigger] roots[k]).0 < g.len()
    &&& forall|v: Node| !(#[trigger] roots.contains(v) && out.contains(v))
    &&& forall|v: Node|
        #![trigger roots.contains(v)]
        #![trigger out.contains(v)]
        (roots.contains(v) || out.contains(v)) ==> i[v.0 as int].len() == 0
    &&& forall|v: Node|
        v.0 < g.len() && !has_incoming(g, v) ==> #[trigger] roots.contains(v) || out.contains(v)
    &&& forall|v: Node|
        #![trigger roots.contains(v)]
        #![trigger out.contains(v)]
        v.0 < g.len() && !roots.contains(v) && !out.contains(v) ==> i[v.0 as int].len() > 0
    &&& respects_edges(g, out)
}

/// No walk of `g` passes a node twice: `g` has no cycle.
pub open spec fn acyclic(g: Seq<Seq<Edge>>) -> bool {
    forall|w: Seq<Node>| #[trigger] is_walk(g, w) ==> w.no_duplicates()
}

/// A walk of `k + 1` nodes outside `out` that ends at `v`, when every node
/// of `g` outside `out` has an edge into it from another such node.
proof fn lemma_walk_back(g: Seq<Seq<Edge>>, out: Seq<Node>, v: Node, k: nat) -> (w: Seq<Node>)
    requires
        v.0 < g.len(),
        !out.contains(v),
        forall|x: Node|
            x.0 < g.len() && !(#[trigger] out.contains(x)) ==> exists|a: Node|
                a.0 < g.len() && !out.contains(a) && has_edge_spec(g, a, x),
    ensures
        w.len() == k + 1,
        w.last() == v,
        is_walk(g, w),
        forall|j: int| 0 <= j < w.len() ==> (#[trigger] w[j]).0 < g.len(),
    decreases k,
{
    if k == 0 {
        seq![v]
    } else {
        assert(!out.contains(v));
        let a = choose|a: Node| a.0 < g.len() && !out.contains(a) && has_edge_spec(g, a, v);
        let w0 = lemma_walk_back(g, out, a, (k - 1) as nat);
        let w = w0.push(v);
        assert forall|i: int| 0 < i < w.len() implies has_edge_spec(g, w[i - 1], #[trigger] w[i]) by {
            if i < w0.len() {
                assert(w[i - 1] == w0[i - 1] && w[i] == w0[i]);
            } else {
                assert(w[i - 1] == w0.last());
            }
        }
        assert forall|j: int| 0 <= j < w.len() implies (#[trigger] w[j]).0 < g.len() by {
            if j < w0.len() {
                assert(w[j] == w0[j]);
            }
        }
        w
    }
}

/// In a graph without cycles, not every node outside `out` can have an edge
/// into it from another node outside `out`.
proof fn lemma_acyclic_has_source(g: Seq<Seq<Edge>>, out: Seq<Node>, v: Node)
    requires
        acyclic(g),
        g.len() <= usize::MAX,
        v.0 < g.len(),
        !out.contains(v),
    ensures
        exists|x: Node|
            x.0 < g.len() && !(#[trigger] out.contains(x)) && !exists|a: Node|
                a.0 < g.len() && !out.contains(a) && has_edge_spec(g, a, x),
{
    if !exists|x: Node|
        x.0 < g.len() && !(#[trigger] out.contains(x)) && !exists|a: Node|
            a.0 < g.len() && !out.contains(a) && has_edge_spec(g, a, x) {
        let w = lemma_walk_back(g, out, v, g.len());
        assert(w.no_duplicates());
        lemma_distinct_nodes_len(w, g.len());
    }
}

/// Each node of `out` comes after every node with an edge to it.
pub open spec fn respects_edges(g: Seq<Seq<Edge>>, out: Seq<Node>) -> bool {
    forall|j: int, a: Node|
        0 <= j < out.len() && #[trigger] has_edge_spec(g, a, out[j]) ==> exists|k: int|
            0 <= k < j && out[k] == a
}

/// Nodes in an order where each comes after every node with an edge to it.
/// Every node that no edge leads to is there, and in a graph without cycles
/// every node; a node on a cycle, or reached from one, is not.
pub fn topsort(g: &AdjacencyList) -> (r: Vec<Node>)
    requires
        g.wf(),
    ensures
        r@.no_duplicates(),
        forall|k: int| 0 <= k < r@.len() ==> (#[trigger] r@[k]).0 < g@.len(),
        respects_edges(g@, r@),
        forall|v: Node| v.0 < g@.len() && !has_incoming(g@, v) ==> #[trigger] r@.contains(v),
        acyclic(g@) ==> forall|v: Node| v.0 < g@.len() ==> #[trigger] r@.contains(v),
{
    let len = g.len();
    let mut out: Vec<Node> = Vec::new();
    let mut roots = compute_roots(g);
    let mut outgoing = g.clone();
    let mut incoming: AdjacencyList = g.inverted();
    proof {
        let gg = g@;
        let ii = incoming@;
        assert(roots@.no_duplicates()) by {
            assert forall|x: int, y: int|
                0 <= x < roots@.len() && 0 <= y < roots@.len() && x != y implies roots@[x]
                != roots@[y] by {
                if x < y {
                    assert(roots@[x].0 < roots@[y].0);
                } else {
                    assert(roots@[y].0 < roots@[x].0);
                }
            }
        }
        assert forall|k: int| 0 <= k < roots@.len() implies (#[trigger] roots@[k]).0 < gg.len() by {
            assert(roots@.contains(roots@[k]));
        }
        assert forall|v: Node|
            #![trigger roots@.contains(v)]
            #![trigger out@.contains(v)]
            (roots@.contains(v) || out@.contains(v)) implies ii[v.0 as int].len()
            == 0 by {
            if roots@.contains(v) && ii[v.0 as int].len() > 0 {
                let a = ii[v.0 as int][0].node;
                assert(has_edge_spec(ii, v, a));
                assert(has_edge_spec(gg, a, v));
            }
        }
        assert forall|v: Node|
            #![trigger roots@.contains(v)]
            #![trigger out@.contains(v)]
            v.0 < gg.len() && !roots@.contains(v) && !out@.contains(v) implies ii[v.0 as int].len() > 0 by {
            assert(has_incoming(gg, v));
            let a = choose|a: Node| #[trigger] has_edge_spec(gg, a, v);
            assert(has_edge_spec(ii, v, a));
        }
        assert(topsort_inv(gg, outgoing@, ii, roots@, out@));
    }
    loop
        invariant
            len == g@.len(),
            forall|a: Node, b: Node|
                #[trigger] has_edge_spec(outgoing@, a, b) <==> has_edge_spec(incoming@, b, a),
            outgoing.wf(),
            incoming.wf(),
            topsort_inv(g@, outgoing@, incoming@, roots@, out@),
        ensures
            topsort_inv(g@, outgoing@, incoming@, roots@, out@),
            roots@.len() == 0,
        decreases len - out@.len(),
    {
        let ghost o0 = outgoing@;
        let ghost i0 = incoming@;
        let ghost r0 = roots@;
        let ghost out0 = out@;
        let n = match roots.pop() {
            None => {
                break;
            },
            Some(n) => n,
        };
        proof {
            assert(r0[r0.len() - 1] == n);
            assert(r0.contains(n));
            assert(roots@ =~= r0.drop_last());
            assert(i0[n.0 as int].len() == 0);
            assert(!out0.contains(n));
            assert forall|a: Node| #[trigger] has_edge_spec(g@, a, n) implies out0.contains(a) by {
                if !out0.contains(a) {
                    assert(o0[a.0 as int] == g@[a.0 as int]);
                    assert(has_edge_spec(o0, a, n));
                    assert(has_edge_spec(i0, n, a));
                }
            }
        }
        out.push(n);
        proof {
            let o = out@;
            assert(o.last() == n);
            assert forall|v: Node| #[trigger] o.contains(v) <==> (out0.contains(v) || v == n) by {
                if o.contains(v) && v != n {
                    let k = choose|k: int| 0 <= k < o.len() && o[k] == v;
                    assert(out0[k] == v);
                }
                if out0.contains(v) {
                    let k = choose|k: int| 0 <= k < out0.len() && out0[k] == v;
                    assert(o[k] == v);
                }
                if v == n {
                    assert(o[o.len() - 1] == n);
                }
            }
            assert forall|v: Node| #[trigger] roots@.contains(v) implies r0.contains(v) && v != n by {
                {
                    let k = choose|k: int| 0 <= k < roots@.len() && roots@[k] == v;
                    assert(r0[k] == v);
                }
            }
            assert forall|x: int, y: int| 0 <= x < o.len() && 0 <= y < o.len() && x != y implies o[x]
                != o[y] by {
                if x < out0.len() && y < out0.len() {
                    assert(o[x] == out0[x] && o[y] == out0[y]);
                } else if x < out0.len() {
                    assert(o[x] == out0[x]);
                    assert(out0.contains(o[x]));
                } else if y < out0.len() {
                    assert(o[y] == out0[y]);
                    assert(out0.contains(o[y]));
                }
            }
            assert forall|k: int| 0 <= k < o.len() implies (#[trigger] o[k]).0 < len by {
                if k < out0.len() {
                    assert(o[k] == out0[k]);
                }
            }
            lemma_distinct_nodes_len(o, len as nat);
            assert forall|j: int, a: Node|
                0 <= j < o.len() && #[trigger] has_edge_spec(g@, a, o[j]) implies exists|k: int|
                    0 <= k < j && o[k] == a by {
                if j < out0.len() {
                    assert(o[j] == out0[j]);
                    let k = choose|k: int| 0 <= k < j && out0[k] == a;
                    assert(o[k] == a);
                } else {
                    assert(out0.contains(a));
                    let k = choose|k: int| 0 <= k < out0.len() && out0[k] == a;
                    assert(o[k] == a);
                }
            }
        }
        let removed = outgoing.clear_edges(n);
        proof {
            assert(removed@ == g@[n.0 as int]);
            assert forall|a: Node, b: Node|
                a != n implies (#[trigger] has_edge_spec(outgoing@, a, b) <==> has_edge_spec(
                incoming@,
                b,
                a,
            )) by {
                assert(has_edge_spec(o0, a, b) <==> has_edge_spec(i0, b, a));
                if a.0 < len {
                    assert(outgoing@[a.0 as int] == o0[a.0 as int]);
                }
            }
            assert forall|b: Node|
                #[trigger] has_edge_spec(incoming@, b, n) <==> (b.0 < len && exists|j: int|
                    0 <= j < removed@.len() && (#[trigger] removed@[j]).node == b) by {
                assert(has_edge_spec(o0, n, b) <==> has_edge_spec(i0, b, n));
                assert(o0[n.0 as int] == removed@);
            }
            assert forall|v: Node|
                #![trigger roots@.contains(v)]
                #![trigger out@.contains(v)]
                (roots@.contains(v) || out@.contains(v)) implies incoming@[v.0 as int].len()
                == 0 by {
                if roots@.contains(v) {
                    assert(r0.contains(v));
                } else if v != n {
                    assert(out0.contains(v));
                }
            }
            assert forall|v: Node|
                v.0 < len && !has_incoming(g@, v) implies #[trigger] roots@.contains(v)
                    || out@.contains(v) by {
                if r0.contains(v) && v != n {
                    let j = choose|j: int| 0 <= j < r0.len() && r0[j] == v;
                    assert(j != r0.len() - 1);
                    assert(roots@[j] == v);
                }
                if v == n {
                    assert(out@.contains(n));
                }
            }
            assert forall|v: Node|
                #![trigger roots@.contains(v)]
                #![trigger out@.contains(v)]
                v.0 < len && !roots@.contains(v) && !out@.contains(v) implies incoming@[v.0 as int].len()
                    > 0 by {
                assert(v != n);
                assert(!out0.contains(v));
                if r0.contains(v) {
                    let j = choose|j: int| 0 <= j < r0.len() && r0[j] == v;
                    assert(j != r0.len() - 1);
                    assert(roots@[j] == v);
                }
                assert(!r0.contains(v));
            }
            // `n` has no edge to itself: it would lead into `n`.
            assert forall|j: int| 0 <= j < removed@.len() implies (#[trigger] removed@[j]).node != n by {
                if removed@[j].node == n {
                    assert(has_edge_spec(g@, n, n));
                    assert(out0.contains(n));
                }
            }
        }
        let mut k: usize = 0;
        while k < removed.len()
            invariant
                len == g@.len(),
                g.wf(),
                n.0 < len,
                removed@ == g@[n.0 as int],
                k <= removed@.len(),
                forall|j: int| 0 <= j < removed@.len() ==> (#[trigger] removed@[j]).node != n,
                outgoing.wf(),
                incoming.wf(),
                outgoing@.len() == len,
                incoming@.len() == len,
                outgoing@[n.0 as int].len() == 0,
                forall|a: Node, b: Node|
                    a != n ==> (#[trigger] has_edge_spec(outgoing@, a, b) <==> has_edge_spec(
                        incoming@,
                        b,
                        a,
                    )),
                forall|b: Node|
                    #[trigger] has_edge_spec(incoming@, b, n) <==> (b.0 < len && exists|j: int|
                        k <= j < removed@.len() && (#[trigger] removed@[j]).node == b),
                forall|v: Node|
                    v.0 < len ==> (#[trigger] out@.contains(v) ==> outgoing@[v.0 as int].len() == 0)
                        && (!out@.contains(v) ==> outgoing@[v.0 as int] == g@[v.0 as int]),
                out@.no_duplicates(),
                roots@.no_duplicates(),
                forall|j: int| 0 <= j < out@.len() ==> (#[trigger] out@[j]).0 < len,
                forall|j: int| 0 <= j < roots@.len() ==> (#[trigger] roots@[j]).0 < len,
                forall|v: Node| !(#[trigger] roots@.contains(v) && out@.contains(v)),
                forall|v: Node|
                    #![trigger roots@.contains(v)]
                    #![trigger out@.contains(v)]
                    (roots@.contains(v) || out@.contains(v)) ==> incoming@[v.0 as int].len()
                        == 0,
                forall|v: Node|
                    v.0 < len && !has_incoming(g@, v) ==> #[trigger] roots@.contains(v)
                        || out@.contains(v),
                forall|v: Node|
                    #![trigger roots@.contains(v)]
                    #![trigger out@.contains(v)]
                    v.0 < len && !roots@.contains(v) && !out@.contains(v) ==> incoming@[v.0 as int].len()
                        > 0,
                respects_edges(g@, out@),
            decreases removed@.len() - k,
        {
            let b = removed[k].node;
            let ghost ib = incoming@;
            let ghost rb = roots@;
            proof {
                assert(g@[n.0 as int][k as int] == removed@[k as int]);
                assert(b.0 < len);
                assert(has_edge_spec(ib, b, n));
                assert(ib[b.0 as int].len() > 0);
                assert(!rb.contains(b));
                assert(!out@.contains(b));
            }
            let r = incoming.remove_edge(b, n);
            proof {
                assert(r is Some);
                let ic = incoming@;
                assert forall|a: Node, x: Node|
                    a != n implies (#[trigger] has_edge_spec(outgoing@, a, x) <==> has_edge_spec(
                    ic,
                    x,
                    a,
                )) by {
                    if x.0 < len && x != b {
                        assert(ic[x.0 as int] == ib[x.0 as int]);
                    }
                }
                assert forall|x: Node|
                    #[trigger] has_edge_spec(ic, x, n) <==> (x.0 < len && exists|j: int|
                        k + 1 <= j < removed@.len() && (#[trigger] removed@[j]).node == x) by {
                    assert(has_edge_spec(ib, x, n) <==> (x.0 < len && exists|j: int|
                        k <= j < removed@.len() && (#[trigger] removed@[j]).node == x));
                    if x.0 < len && x != b {
                        assert(ic[x.0 as int] == ib[x.0 as int]);
                        if exists|j: int| k <= j < removed@.len() && (#[trigger] removed@[j]).node == x {
                            let j = choose|j: int|
                                k <= j < removed@.len() && (#[trigger] removed@[j]).node == x;
                            assert(j != k);
                        }
                    }
                    if x == b {
                        assert(!has_edge_spec(ic, b, n));
                        if exists|j: int| k + 1 <= j < removed@.len() && (#[trigger] removed@[j]).node
                            == x {
                            let j = choose|j: int|
                                k + 1 <= j < removed@.len() && (#[trigger] removed@[j]).node == x;
                            assert(g@[n.0 as int][j] == removed@[j]);
                            assert(g@[n.0 as int][k as int] == removed@[k as int]);
                        }
                    }
                }
                assert forall|v: Node|
                    #![trigger roots@.contains(v)]
                    #![trigger out@.contains(v)]
                    (roots@.contains(v) || out@.contains(v)) implies ic[v.0 as int].len()
                    == 0 by {
                    if roots@.contains(v) {
                        let j = choose|j: int| 0 <= j < roots@.len() && roots@[j] == v;
                        assert(roots@[j].0 < len);
                    } else {
                        let j = choose|j: int| 0 <= j < out@.len() && out@[j] == v;
                        assert(out@[j].0 < len);
                    }
                    assert(ib[v.0 as int].len() == 0);
                    assert(v != b);
                    assert(ic[v.0 as int] == ib[v.0 as int]);
                }
            }
            if incoming.edges(b).len() == 0 {
                roots.push(b);
                proof {
                    let rr = roots@;
                    assert forall|v: Node| #[trigger] rr.contains(v) <==> (rb.contains(v) || v == b) by {
                        if rr.contains(v) && v != b {
                            let j = choose|j: int| 0 <= j < rr.len() && rr[j] == v;
                            assert(rb[j] == v);
                        }
                        if rb.contains(v) {
                            let j = choose|j: int| 0 <= j < rb.len() && rb[j] == v;
                            assert(rr[j] == v);
                        }
                        if v == b {
                            assert(rr[rr.len() - 1] == b);
                        }
                    }
                    assert forall|x: int, y: int|
                        0 <= x < rr.len() && 0 <= y < rr.len() && x != y implies rr[x] != rr[y] by {
                        if x < rb.len() && y < rb.len() {
                            assert(rr[x] == rb[x] && rr[y] == rb[y]);
                        } else if x < rb.len() {
                            assert(rr[x] == rb[x]);
                            assert(rb.contains(rr[x]));
                        } else if y < rb.len() {
                            assert(rr[y] == rb[y]);
                            assert(rb.contains(rr[y]));
                        }
                    }
                    assert forall|j: int| 0 <= j < rr.len() implies (#[trigger] rr[j]).0 < len by {
                        if j < rb.len() {
                            assert(rr[j] == rb[j]);
                        }
                    }
                    assert forall|v: Node|
                        #![trigger rr.contains(v)]
                        #![trigger out@.contains(v)]
                        (rr.contains(v) || out@.contains(v)) implies incoming@[v.0 as int].len()
                        == 0 by {
                        if v != b {
                            assert(rb.contains(v) || out@.contains(v));
                        }
                    }
                    assert forall|v: Node| !(#[trigger] rr.contains(v) && out@.contains(v)) by {
                        if rr.contains(v) && v != b {
                            assert(rb.contains(v));
                        }
                    }
                    assert forall|v: Node|
                        v.0 < len && !has_incoming(g@, v) implies #[trigger] rr.contains(v)
                            || out@.contains(v) by {
                        if !out@.contains(v) {
                            assert(rb.contains(v));
                        }
                    }
                }
            }
            k = k + 1;
        }
        proof {
            assert forall|a: Node, x: Node|
                #[trigger] has_edge_spec(outgoing@, a, x) <==> has_edge_spec(incoming@, x, a) by {
                if a == n {
                    assert(!has_edge_spec(outgoing@, a, x));
                    assert(!has_edge_spec(incoming@, x, a));
                }
            }
        }
    }
    proof {
        assert forall|v: Node| v.0 < g@.len() && !has_incoming(g@, v) implies #[trigger] out@.contains(
            v,
        ) by {
            assert(!roots@.contains(v));
        }
        let gg = g@;
        let o = out@;
        // Outside the output, every node has an edge into it from another node
        // outside the output.
        assert forall|x: Node|
            x.0 < gg.len() && !(#[trigger] o.contains(x)) implies exists|a: Node|
                a.0 < gg.len() && !o.contains(a) && has_edge_spec(gg, a, x) by {
            assert(!roots@.contains(x));
            assert(incoming@[x.0 as int].len() > 0);
            let a = incoming@[x.0 as int][0].node;
            assert(has_edge_spec(incoming@, x, a));
            assert(has_edge_spec(outgoing@, a, x));
            assert(!o.contains(a));
            assert(outgoing@[a.0 as int] == gg[a.0 as int]);
            assert(has_edge_spec(gg, a, x));
        }
        if acyclic(gg) {
            assert forall|v: Node| v.0 < gg.len() implies #[trigger] o.contains(v) by {
                if !o.contains(v) {
                    lemma_acyclic_has_source(gg, o, v);
                    let x = choose|x: Node|
                        x.0 < gg.len() && !(#[trigger] o.contains(x)) && !exists|a: Node|
                            a.0 < gg.len() && !o.contains(a) && has_edge_spec(gg, a, x);
                }
            }
        }
    }
    out
}

} // verus!
