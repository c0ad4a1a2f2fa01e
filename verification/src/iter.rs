//! Iterators over the nodes of a graph, in increasing key order.
//!
//! Each iterator holds the `(key, node)` pairs that it has yet to hand out
//! and gives each pair out in its own shape.
use vstd::prelude::*;
use crate::ids::NodeId;
use crate::snarl::Node;

verus! {

/// The `(key, node)` pairs that an iterator has yet to hand out.
pub struct NodeCursor<'a, T> {
    entries: Vec<(usize, &'a Node<T>)>,
    pos: usize,
}

impl<'a, T> NodeCursor<'a, T> {
    #[verifier::type_invariant]
    spec fn inv(self) -> bool {
        self.pos <= self.entries@.len()
    }

    /// The pairs still to come, in order.
    pub closed spec fn remaining(&self) -> Seq<(usize, &'a Node<T>)> {
        self.entries@.skip(self.pos as int)
    }

    /// A cursor over `entries`, from the first.
    pub fn new(entries: Vec<(usize, &'a Node<T>)>) -> (r: Self)
        ensures
            r.remaining() == entries@,
    {
        let r = NodeCursor { entries, pos: 0 };
        assert(r.remaining() =~= entries@);
        r
    }

    /// Number of pairs still to come.
    pub fn len(&self) -> (r: usize)
        ensures
            r == self.remaining().len(),
    {
        proof {
            use_type_invariant(self);
        }
        self.entries.len() - self.pos
    }

    /// The next pair, if any.
    pub fn next(&mut self) -> (r: Option<(usize, &'a Node<T>)>)
        ensures
            old(self).remaining().len() == 0 ==> r is None && final(self).remaining() == old(self).remaining(),
            old(self).remaining().len() > 0 ==> r == Some(old(self).remaining()[0])
                && final(self).remaining() == old(self).remaining().drop_first(),
    {
        proof {
            use_type_invariant(&*self);
        }
        if self.pos < self.entries.len() {
            let e = self.entries[self.pos];
            self.pos = self.pos + 1;
            assert(self.remaining() =~= old(self).remaining().drop_first());
            Some(e)
        } else {
            None
        }
    }

    /// Skips `n` pairs, then gives the next one, if any.
    pub fn nth(&mut self, n: usize) -> (r: Option<(usize, &'a Node<T>)>)
        ensures
            n < old(self).remaining().len() ==> r == Some(old(self).remaining()[n as int])
                && final(self).remaining() == old(self).remaining().skip(n + 1),
            n >= old(self).remaining().len() ==> r is None && final(self).remaining().len() == 0,
    {
        proof {
            use_type_invariant(&*self);
        }
        let left: usize = self.entries.len() - self.pos;
        if n < left {
            let e = self.entries[self.pos + n];
            self.pos = self.pos + n + 1;
            assert(self.remaining() =~= old(self).remaining().skip(n + 1));
            Some(e)
        } else {
            self.pos = self.entries.len();
            None
        }
    }
}

/// Iterator over shared references to nodes.
pub struct NodesIter<'a, T> {
    nodes: NodeCursor<'a, T>,
}

/// Iterator over shared references to nodes and their positions.
pub struct NodesPosIter<'a, T> {
    nodes: NodeCursor<'a, T>,
}

/// Iterator over shared references to nodes and their identifiers.
pub struct NodesIdsIter<'a, T> {
    nodes: NodeCursor<'a, T>,
}

/// Iterator over shared references to nodes, their positions and their identifiers.
pub struct NodesPosIdsIter<'a, T> {
    nodes: NodeCursor<'a, T>,
}

/// Iterator over shared references to nodes.
pub struct NodeInfoIter<'a, T> {
    nodes: NodeCursor<'a, T>,
}

/// Iterator over shared references to nodes.
pub struct NodeIdsDataIter<'a, T> {
    nodes: NodeCursor<'a, T>,
}

impl<'a, T> NodesIter<'a, T> {
    /// The `(key, node)` pairs still to come.
    pub closed spec fn remaining(&self) -> Seq<(usize, &'a Node<T>)> {
        self.nodes.remaining()
    }

    /// An iterator over the pairs of `nodes`.
    pub fn new(nodes: NodeCursor<'a, T>) -> (r: Self)
        ensures
            r.remaining() == nodes.remaining(),
    {
        NodesIter { nodes }
    }

    /// Lower and upper bound on the number of items still to come: both exact.
    pub fn size_hint(&self) -> (r: (usize, Option<usize>))
        ensures
            r.0 == self.remaining().len(),
            r.1 == Some(r.0),
    {
        let n: usize = self.nodes.len();
        (n, Some(n))
    }

    /// The value of the next node.
    pub fn next(&mut self) -> (r: Option<&'a T>)
        ensures
            old(self).remaining().len() == 0 ==> r is None && final(self).remaining() == old(self).remaining(),
            old(self).remaining().len() > 0 ==> r == Some(&old(self).remaining()[0].1.value)
                && final(self).remaining() == old(self).remaining().drop_first(),
    {
        match self.nodes.next() {
            Some((_, node)) => Some(&node.value),
            None => None,
        }
    }

    /// The value of the node `n` places further on.
    pub fn nth(&mut self, n: usize) -> (r: Option<&'a T>)
        ensures
            n < old(self).remaining().len() ==> r == Some(&old(self).remaining()[n as int].1.value)
                && final(self).remaining() == old(self).remaining().skip(n + 1),
            n >= old(self).remaining().len() ==> r is None && final(self).remaining().len() == 0,
    {
        match self.nodes.nth(n) {
            Some((_, node)) => Some(&node.value),
            None => None,
        }
    }
}

impl<'a, T> NodesPosIter<'a, T> {
    /// The `(key, node)` pairs still to come.
    pub closed spec fn remaining(&self) -> Seq<(usize, &'a Node<T>)> {
        self.nodes.remaining()
    }

    /// An iterator over the pairs of `nodes`.
    pub fn new(nodes: NodeCursor<'a, T>) -> (r: Self)
        ensures
            r.remaining() == nodes.remaining(),
    {
        NodesPosIter { nodes }
    }

    /// Lower and upper bound on the number of items still to come: both exact.
    pub fn size_hint(&self) -> (r: (usize, Option<usize>))
        ensures
            r.0 == self.remaining().len(),
            r.1 == Some(r.0),
    {
        let n: usize = self.nodes.len();
        (n, Some(n))
    }

    /// The position and value of the next node.
    pub fn next(&mut self) -> (r: Option<(egui::Pos2, &'a T)>)
        ensures
            old(self).remaining().len() == 0 ==> r is None && final(self).remaining() == old(self).remaining(),
            old(self).remaining().len() > 0 ==> r == Some((old(self).remaining()[0].1.pos, &old(self).remaining()[0].1.value))
                && final(self).remaining() == old(self).remaining().drop_first(),
    {
        match self.nodes.next() {
            Some((_, node)) => Some((node.pos, &node.value)),
            None => None,
        }
    }

    /// The position and value of the node `n` places further on.
    pub fn nth(&mut self, n: usize) -> (r: Option<(egui::Pos2, &'a T)>)
        ensures
            n < old(self).remaining().len() ==> r == Some((old(self).remaining()[n as int].1.pos, &old(self).remaining()[n as int].1.value))
                && final(self).remaining() == old(self).remaining().skip(n + 1),
            n >= old(self).remaining().len() ==> r is None && final(self).remaining().len() == 0,
    {
        match self.nodes.nth(n) {
            Some((_, node)) => Some((node.pos, &node.value)),
            None => None,
        }
    }
}


impl<'a, T> NodesIdsIter<'a, T> {
    /// The `(key, node)` pairs still to come.
    pub closed spec fn remaining(&self) -> Seq<(usize, &'a Node<T>)> {
        self.nodes.remaining()
    }

    /// An iterator over the pairs of `nodes`.
    pub fn new(nodes: NodeCursor<'a, T>) -> (r: Self)
        ensures
            r.remaining() == nodes.remaining(),
    {
        NodesIdsIter { nodes }
    }

    /// Lower and upper bound on the number of items still to come: both exact.
    pub fn size_hint(&self) -> (r: (usize, Option<usize>))
        ensures
            r.0 == self.remaining().len(),
            r.1 == Some(r.0),
    {
        let n: usize = self.nodes.len();
        (n, Some(n))
    }

    /// The id and value of the next node.
    pub fn next(&mut self) -> (r: Option<(NodeId, &'a T)>)
        ensures
            old(self).remaining().len() == 0 ==> r is None && final(self).remaining() == old(self).remaining(),
            old(self).remaining().len() > 0 ==> r == Some((NodeId(old(self).remaining()[0].0), &old(self).remaining()[0].1.value))
                && final(self).remaining() == old(self).remaining().drop_first(),
    {
        match self.nodes.next() {
            Some((idx, node)) => Some((NodeId(idx), &node.value)),
            None => None,
        }
    }

    /// The id and value of the node `n` places further on.
    pub fn nth(&mut self, n: usize) -> (r: Option<(NodeId, &'a T)>)
        ensures
            n < old(self).remaining().len() ==> r == Some((NodeId(old(self).remaining()[n as int].0), &old(self).remaining()[n as int].1.value))
                && final(self).remaining() == old(self).remaining().skip(n + 1),
            n >= old(self).remaining().len() ==> r is None && final(self).remaining().len() == 0,
    {
        match self.nodes.nth(n) {
            Some((idx, node)) => Some((NodeId(idx), &node.value)),
            None => None,
        }
    }
}


impl<'a, T> NodesPosIdsIter<'a, T> {
    /// The `(key, node)` pairs still to come.
    pub closed spec fn remaining(&self) -> Seq<(usize, &'a Node<T>)> {
        self.nodes.remaining()
    }

    /// An iterator over the pairs of `nodes`.
    pub fn new(nodes: NodeCursor<'a, T>) -> (r: Self)
        ensures
            r.remaining() == nodes.remaining(),
    {
        NodesPosIdsIter { nodes }
    }

    /// Lower and upper bound on the number of items still to come: both exact.
    pub fn size_hint(&self) -> (r: (usize, Option<usize>))
        ensures
            r.0 == self.remaining().len(),
            r.1 == Some(r.0),
    {
        let n: usize = self.nodes.len();
        (n, Some(n))
    }

    /// The id, position and value of the next node.
    pub fn next(&mut self) -> (r: Option<(NodeId, egui::Pos2, &'a T)>)
        ensures
            old(self).remaining().len() == 0 ==> r is None && final(self).remaining() == old(self).remaining(),
            old(self).remaining().len() > 0 ==> r == Some((NodeId(old(self).remaining()[0].0), old(self).remaining()[0].1.pos, &old(self).remaining()[0].1.value))
                && final(self).remaining() == old(self).remaining().drop_first(),
    {
        match self.nodes.next() {
            Some((idx, node)) => Some((NodeId(idx), node.pos, &node.value)),
            None => None,
        }
    }

    /// The id, position and value of the node `n` places further on.
    pub fn nth(&mut self, n: usize) -> (r: Option<(NodeId, egui::Pos2, &'a T)>)
        ensures
            n < old(self).remaining().len() ==> r == Some((NodeId(old(self).remaining()[n as int].0), old(self).remaining()[n as int].1.pos, &old(self).remaining()[n as int].1.value))
                && final(self).remaining() == old(self).remaining().skip(n + 1),
            n >= old(self).remaining().len() ==> r is None && final(self).remaining().len() == 0,
    {
        match self.nodes.nth(n) {
            Some((idx, node)) => Some((NodeId(idx), node.pos, &node.value)),
            None => None,
        }
    }
}


impl<'a, T> NodeInfoIter<'a, T> {
    /// The `(key, node)` pairs still to come.
    pub closed spec fn remaining(&self) -> Seq<(usize, &'a Node<T>)> {
        self.nodes.remaining()
    }

    /// An iterator over the pairs of `nodes`.
    pub fn new(nodes: NodeCursor<'a, T>) -> (r: Self)
        ensures
            r.remaining() == nodes.remaining(),
    {
        NodeInfoIter { nodes }
    }

    /// Lower and upper bound on the number of items still to come: both exact.
    pub fn size_hint(&self) -> (r: (usize, Option<usize>))
        ensures
            r.0 == self.remaining().len(),
            r.1 == Some(r.0),
    {
        let n: usize = self.nodes.len();
        (n, Some(n))
    }

    /// The data of the next node.
    pub fn next(&mut self) -> (r: Option<&'a Node<T>>)
        ensures
            old(self).remaining().len() == 0 ==> r is None && final(self).remaining() == old(self).remaining(),
            old(self).remaining().len() > 0 ==> r == Some(old(self).remaining()[0].1)
                && final(self).remaining() == old(self).remaining().drop_first(),
    {
        match self.nodes.next() {
            Some((_, node)) => Some(node),
            None => None,
        }
    }

    /// The data of the node `n` places further on.
    pub fn nth(&mut self, n: usize) -> (r: Option<&'a Node<T>>)
        ensures
            n < old(self).remaining().len() ==> r == Some(old(self).remaining()[n as int].1)
                && final(self).remaining() == old(self).remaining().skip(n + 1),
            n >= old(self).remaining().len() ==> r is None && final(self).remaining().len() == 0,
    {
        match self.nodes.nth(n) {
            Some((_, node)) => Some(node),
            None => None,
        }
    }
}


impl<'a, T> NodeIdsDataIter<'a, T> {
    /// The `(key, node)` pairs still to come.
    pub closed spec fn remaining(&self) -> Seq<(usize, &'a Node<T>)> {
        self.nodes.remaining()
    }

    /// An iterator over the pairs of `nodes`.
    pub fn new(nodes: NodeCursor<'a, T>) -> (r: Self)
        ensures
            r.remaining() == nodes.remaining(),
    {
        NodeIdsDataIter { nodes }
    }

    /// Lower and upper bound on the number of items still to come: both exact.
    pub fn size_hint(&self) -> (r: (usize, Option<usize>))
        ensures
            r.0 == self.remaining().len(),
            r.1 == Some(r.0),
    {
        let n: usize = self.nodes.len();
        (n, Some(n))
    }

    /// The id and data of the next node.
    pub fn next(&mut self) -> (r: Option<(NodeId, &'a Node<T>)>)
        ensures
            old(self).remaining().len() == 0 ==> r is None && final(self).remaining() == old(self).remaining(),
            old(self).remaining().len() > 0 ==> r == Some((NodeId(old(self).remaining()[0].0), old(self).remaining()[0].1))
                && final(self).remaining() == old(self).remaining().drop_first(),
    {
        match self.nodes.next() {
            Some((idx, node)) => Some((NodeId(idx), node)),
            None => None,
        }
    }

    /// The id and data of the node `n` places further on.
    pub fn nth(&mut self, n: usize) -> (r: Option<(NodeId, &'a Node<T>)>)
        ensures
            n < old(self).remaining().len() ==> r == Some((NodeId(old(self).remaining()[n as int].0), old(self).remaining()[n as int].1))
                && final(self).remaining() == old(self).remaining().skip(n + 1),
            n >= old(self).remaining().len() ==> r is None && final(self).remaining().len() == 0,
    {
        match self.nodes.nth(n) {
            Some((idx, node)) => Some((NodeId(idx), node)),
            None => None,
        }
    }
}

} // verus!
