use vstd::prelude::*;
use vstd::set_lib::*;

use crate::Node;

verus! {

/// A set of nodes, stored as a flat array of flags indexed by the node's index.
pub struct NodeSet {
    v: Vec<bool>,
}

/// Every node whose index is below `len`.
pub open spec fn nodes_below(len: nat) -> Set<Node> {
    Set::new(|n: Node| n.0 < len)
}

pub proof fn lemma_nodes_below_finite(len: nat)
    ensures
        nodes_below(len).finite(),
{
    lemma_int_range(0, len as int);
    let f = |i: int| Node(i as usize);
    set_int_range(0, len as int).lemma_map_finite(f);
    assert forall|n: Node| #[trigger] nodes_below(len).contains(n) implies set_int_range(
        0,
        len as int,
    ).map(f).contains(n) by {
        assert(set_int_range(0, len as int).contains(n.0 as int));
        assert(f(n.0 as int) == n);
    }
    lemma_len_subset(nodes_below(len), set_int_range(0, len as int).map(f));
}

pub proof fn lemma_nodes_below_len(len: nat)
    requires
        len <= usize::MAX,
    ensures
        nodes_below(len).len() == len,
    decreases len,
{
    lemma_nodes_below_finite(len);
    if len == 0 {
        assert(nodes_below(len) =~= Set::<Node>::empty());
    } else {
        let m = (len - 1) as nat;
        lemma_nodes_below_len(m);
        lemma_nodes_below_finite(m);
        assert(nodes_below(len) =~= nodes_below(m).insert(Node(m as usize)));
    }
}

/// A sequence of distinct nodes, each below `len`, has at most `len` entries.
pub proof fn lemma_distinct_nodes_len(s: Seq<Node>, len: nat)
    requires
        len <= usize::MAX,
        s.no_duplicates(),
        forall|k: int| 0 <= k < s.len() ==> (#[trigger] s[k]).0 < len,
    ensures
        s.len() <= len,
{
    s.unique_seq_to_set();
    lemma_nodes_below_len(len);
    lemma_nodes_below_finite(len);
    assert(s.to_set().subset_of(nodes_below(len)));
    lemma_len_subset(s.to_set(), nodes_below(len));
}

impl View for NodeSet {
    type V = Set<Node>;

    closed spec fn view(&self) -> Set<Node> {
        Set::new(|n: Node| n.0 < self.v@.len() && self.v@[n.0 as int])
    }
}

impl NodeSet {
    proof fn lemma_finite(&self)
        ensures
            self@.finite(),
    {
        lemma_nodes_below_finite(self.v@.len());
        lemma_len_subset(self@, nodes_below(self.v@.len()));
    }

    pub fn new() -> (s: Self)
        ensures
            s@ == Set::<Node>::empty(),
    {
        let s = NodeSet { v: Vec::new() };
        assert(s@ =~= Set::<Node>::empty());
        s
    }

    /// An empty set whose storage is allocated for `capacity` nodes up front.
    pub fn with_capacity(capacity: usize) -> (s: Self)
        ensures
            s@ == Set::<Node>::empty(),
    {
        let s = NodeSet { v: Vec::with_capacity(capacity) };
        assert(s@ =~= Set::<Node>::empty());
        s
    }

    /// Adds `n`; tells whether it was absent before.
    pub fn add(&mut self, n: Node) -> (added: bool)
        requires
            n.0 < usize::MAX,
        ensures
            final(self)@ == old(self)@.insert(n),
            added == !old(self)@.contains(n),
    {
        let i = n.0;
        while self.v.len() <= i
            invariant
                self@ == old(self)@,
                i < usize::MAX,
            decreases i + 1 - self.v.len(),
        {
            let ghost before = self@;
            self.v.push(false);
            assert(self@ =~= before);
        }
        let added = !self.v[i];
        self.v.set(i, true);
        assert(self@ =~= old(self)@.insert(n));
        added
    }

    /// Adds each of `nodes`; returns how many of them were absent before.
    pub fn add_many(&mut self, nodes: &[Node]) -> (count: usize)
        requires
            forall|k: int| 0 <= k < nodes@.len() ==> (#[trigger] nodes@[k]).0 < usize::MAX,
        ensures
            final(self)@ == old(self)@ + nodes@.to_set(),
            count == (nodes@.to_set() - old(self)@).len(),
    {
        let mut count: usize = 0;
        let mut i: usize = 0;
        proof {
            assert(nodes@.subrange(0, 0).to_set() =~= Set::<Node>::empty());
            assert(nodes@.subrange(0, 0).to_set() - old(self)@ =~= Set::<Node>::empty());
            assert(self@ =~= old(self)@ + nodes@.subrange(0, 0).to_set());
        }
        while i < nodes.len()
            invariant
                i <= nodes@.len(),
                forall|k: int| 0 <= k < nodes@.len() ==> (#[trigger] nodes@[k]).0 < usize::MAX,
                self@ == old(self)@ + nodes@.subrange(0, i as int).to_set(),
                count == (nodes@.subrange(0, i as int).to_set() - old(self)@).len(),
                count <= i,
            decreases nodes@.len() - i,
        {
            let ghost done = nodes@.subrange(0, i as int).to_set();
            let n = nodes[i];
            let added = self.add(n);
            proof {
                let next = nodes@.subrange(0, i as int + 1).to_set();
                assert(nodes@.subrange(0, i as int + 1) =~= nodes@.subrange(0, i as int).push(n));
                assert(next =~= done.insert(n)) by {
                    nodes@.subrange(0, i as int).lemma_push_to_set_commute(n);
                }
                vstd::seq_lib::seq_to_set_is_finite(nodes@.subrange(0, i as int));
                if added {
                    assert(next - old(self)@ =~= (done - old(self)@).insert(n));
                } else {
                    assert(next - old(self)@ =~= done - old(self)@);
                }
            }
            if added {
                count = count + 1;
            }
            i = i + 1;
        }
        assert(nodes@.subrange(0, nodes@.len() as int) =~= nodes@);
        count
    }

    pub fn has(&self, n: Node) -> (r: bool)
        ensures
            r == self@.contains(n),
    {
        let i = n.0;
        if i >= self.v.len() {
            false
        } else {
            self.v[i]
        }
    }

    /// Removes `n`; tells whether it was present before.
    pub fn remove(&mut self, n: Node) -> (removed: bool)
        ensures
            final(self)@ == old(self)@.remove(n),
            removed == old(self)@.contains(n),
    {
        let i = n.0;
        if i >= self.v.len() {
            assert(old(self)@.remove(n) =~= old(self)@);
            false
        } else {
            let r = self.v[i];
            self.v.set(i, false);
            assert(self@ =~= old(self)@.remove(n));
            r
        }
    }

    /// Removes each of `nodes`; returns how many of them were present before.
    pub fn remove_many(&mut self, nodes: &[Node]) -> (count: usize)
        ensures
            final(self)@ == old(self)@ - nodes@.to_set(),
            count == (old(self)@ * nodes@.to_set()).len(),
    {
        let mut count: usize = 0;
        let mut i: usize = 0;
        proof {
            assert(old(self)@ * nodes@.subrange(0, 0).to_set() =~= Set::<Node>::empty());
            assert(nodes@.subrange(0, 0).to_set() =~= Set::<Node>::empty());
            assert(self@ =~= old(self)@ - nodes@.subrange(0, 0).to_set());
        }
        while i < nodes.len()
            invariant
                i <= nodes@.len(),
                self@ == old(self)@ - nodes@.subrange(0, i as int).to_set(),
                count == (old(self)@ * nodes@.subrange(0, i as int).to_set()).len(),
                count <= i,
            decreases nodes@.len() - i,
        {
            let ghost done = nodes@.subrange(0, i as int).to_set();
            let n = nodes[i];
            let removed = self.remove(n);
            proof {
                let next = nodes@.subrange(0, i as int + 1).to_set();
                assert(nodes@.subrange(0, i as int + 1) =~= nodes@.subrange(0, i as int).push(n));
                assert(next =~= done.insert(n)) by {
                    nodes@.subrange(0, i as int).lemma_push_to_set_commute(n);
                }
                vstd::seq_lib::seq_to_set_is_finite(nodes@.subrange(0, i as int));
                lemma_len_intersect(done, old(self)@);
                assert(old(self)@ * done =~= done * old(self)@);
                if removed {
                    assert(old(self)@ * next =~= (old(self)@ * done).insert(n));
                } else {
                    assert(old(self)@ * next =~= old(self)@ * done);
                }
                assert(self@ =~= old(self)@ - next);
            }
            if removed {
                count = count + 1;
            }
            i = i + 1;
        }
        assert(nodes@.subrange(0, nodes@.len() as int) =~= nodes@);
        count
    }

    /// The nodes of the set, in ascending order of index.
    pub fn to_vec(self) -> (r: Vec<Node>)
        ensures
            forall|i: int, j: int| 0 <= i < j < r@.len() ==> r@[i].0 < r@[j].0,
            forall|n: Node| r@.contains(n) <==> self@.contains(n),
    {
        let mut r: Vec<Node> = Vec::new();
        let mut i: usize = 0;
        while i < self.v.len()
            invariant
                i <= self.v@.len(),
                forall|a: int, b: int| 0 <= a < b < r@.len() ==> r@[a].0 < r@[b].0,
                forall|a: int| 0 <= a < r@.len() ==> r@[a].0 < i,
                forall|n: Node| r@.contains(n) <==> (self@.contains(n) && n.0 < i),
            decreases self.v@.len() - i,
        {
            if self.v[i] {
                let ghost before = r@;
                r.push(Node(i));
                proof {
                    assert forall|n: Node| r@.contains(n) <==> (self@.contains(n) && n.0 < i + 1) by {
                        if r@.contains(n) && n != Node(i) {
                            let k = choose|k: int| 0 <= k < r@.len() && r@[k] == n;
                            assert(before[k] == n);
                        }
                        if n == Node(i) {
                            assert(r@[r@.len() - 1] == n);
                        }
                        if self@.contains(n) && n.0 < i {
                            let k = choose|k: int| 0 <= k < before.len() && before[k] == n;
                            assert(r@[k] == n);
                        }
                    }
                }
            } else {
                proof {
                    assert forall|n: Node| r@.contains(n) <==> (self@.contains(n) && n.0 < i + 1) by {
                        if n.0 == i {
                            if r@.contains(n) {
                                let k = choose|k: int| 0 <= k < r@.len() && r@[k] == n;
                            }
                        }
                    }
                }
            }
            i = i + 1;
        }
        r
    }

    pub fn is_empty(&self) -> (r: bool)
        ensures
            r == (self@ == Set::<Node>::empty()),
    {
        if self.v.len() == 0 {
            assert(self@ =~= Set::<Node>::empty());
            true
        } else {
            let mut i: usize = 0;
            while i < self.v.len()
                invariant
                    i <= self.v@.len(),
                    forall|j: int| 0 <= j < i ==> !self.v@[j],
                decreases self.v@.len() - i,
            {
                if self.v[i] {
                    assert(self@.contains(Node(i)));
                    return false;
                }
                i = i + 1;
            }
            assert(self@ =~= Set::<Node>::empty());
            true
        }
    }

    /// The number of nodes in the set.
    pub fn size(&self) -> (r: usize)
        ensures
            r == self@.len(),
    {
        let mut count: usize = 0;
        let mut i: usize = 0;
        proof {
            assert(self@.filter(|n: Node| n.0 < 0) =~= Set::<Node>::empty());
        }
        while i < self.v.len()
            invariant
                i <= self.v@.len(),
                count <= i,
                count == self@.filter(|n: Node| n.0 < i).len(),
            decreases self.v@.len() - i,
        {
            proof {
                let below = self@.filter(|n: Node| n.0 < i);
                let next = self@.filter(|n: Node| n.0 < i + 1);
                self.lemma_finite();
                lemma_len_subset(below, self@);
                if self.v@[i as int] {
                    assert(next =~= below.insert(Node(i)));
                } else {
                    assert(next =~= below);
                }
            }
            if self.v[i] {
                count = count + 1;
            }
            i = i + 1;
        }
        assert(self@.filter(|n: Node| n.0 < self.v@.len()) =~= self@);
        count
    }

    /// Empties the set and keeps the storage for reuse.
    pub fn clear(&mut self)
        ensures
            final(self)@ == Set::<Node>::empty(),
    {
        let len = self.v.len();
        let mut i: usize = 0;
        while i < len
            invariant
                i <= len,
                self.v@.len() == len,
                forall|j: int| 0 <= j < i ==> !self.v@[j],
            decreases len - i,
        {
            self.v.set(i, false);
            i = i + 1;
        }
        assert(self@ =~= Set::<Node>::empty());
    }
}

} // verus!
