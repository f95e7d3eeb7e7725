use vstd::prelude::*;

use crate::Node;

verus! {

/// A map keyed by node, stored as a flat array indexed by the node's index.
pub struct NodeMap<T> {
    v: Vec<Option<T>>,
}

impl<T> View for NodeMap<T> {
    type V = Map<Node, T>;

    closed spec fn view(&self) -> Map<Node, T> {
        Map::new(
            |n: Node| n.0 < self.v@.len() && self.v@[n.0 as int] is Some,
            |n: Node| self.v@[n.0 as int]->Some_0,
        )
    }
}

impl<T> NodeMap<T> {
    pub fn new() -> (m: Self)
        ensures
            m@ == Map::<Node, T>::empty(),
    {
        let m = NodeMap { v: Vec::new() };
        assert(m@ =~= Map::<Node, T>::empty());
        m
    }

    /// An empty map whose storage is allocated for `cap` nodes up front.
    pub fn with_capacity(cap: usize) -> (m: Self)
        ensures
            m@ == Map::<Node, T>::empty(),
    {
        let m = NodeMap { v: Vec::with_capacity(cap) };
        assert(m@ =~= Map::<Node, T>::empty());
        m
    }

    /// Sets the value of `n`, growing the storage up to `n` when needed.
    pub fn insert(&mut self, n: Node, t: T)
        requires
            n.0 < usize::MAX,
        ensures
            final(self)@ == old(self)@.insert(n, t),
    {
        let i = n.0;
        while self.v.len() <= i
            invariant
                self@ == old(self)@,
                i < usize::MAX,
            decreases i + 1 - self.v.len(),
        {
            let ghost before = self@;
            self.v.push(None);
            assert(self@ =~= before);
        }
        self.v.set(i, Some(t));
        assert(self@ =~= old(self)@.insert(n, t));
    }

    pub fn has(&self, n: &Node) -> (r: bool)
        ensures
            r == self@.contains_key(*n),
    {
        let i = n.0;
        if i >= self.v.len() {
            false
        } else {
            self.v[i].is_some()
        }
    }

    pub fn get(&self, n: &Node) -> (r: Option<&T>)
        ensures
            match r {
                Some(t) => self@.contains_key(*n) && *t == self@[*n],
                None => !self@.contains_key(*n),
            },
    {
        if !self.has(n) {
            None
        } else {
            self.v[n.0].as_ref()
        }
    }

    pub fn get_mut(&mut self, n: &Node) -> (r: Option<&mut T>)
        ensures
            match r {
                Some(t) => {
                    &&& old(self)@.contains_key(*n)
                    &&& *t == old(self)@[*n]
                    &&& final(self)@ == old(self)@.insert(*n, *final(t))
                },
                None => !old(self)@.contains_key(*n) && final(self)@ == old(self)@,
            },
    {
        if !self.has(n) {
            None
        } else {
            self.v[n.0].as_mut()
        }
    }

    pub fn remove(&mut self, n: &Node) -> (r: Option<T>)
        ensures
            match r {
                Some(t) => old(self)@.contains_key(*n) && t == old(self)@[*n],
                None => !old(self)@.contains_key(*n),
            },
            final(self)@ == old(self)@.remove(*n),
    {
        if !self.has(n) {
            assert(old(self)@.remove(*n) =~= old(self)@);
            None
        } else {
            let r = self.v[n.0].take();
            assert(self@ =~= old(self)@.remove(*n));
            r
        }
    }

    /// Forgets every entry and keeps the storage for reuse.
    pub fn clear(&mut self)
        ensures
            final(self)@ == Map::<Node, T>::empty(),
    {
        let len = self.v.len();
        let mut i: usize = 0;
        while i < len
            invariant
                i <= len,
                self.v@.len() == len,
                forall|j: int| 0 <= j < i ==> self.v@[j] is None,
            decreases len - i,
        {
            self.v.set(i, None);
            i = i + 1;
        }
        assert(self@ =~= Map::<Node, T>::empty());
    }
}

} // verus!
