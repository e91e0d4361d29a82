//! Commit identifiers and the edges of the commit graph.

use vstd::prelude::*;
use vstd::std_specs::cmp::PartialEqSpecImpl;

verus! {

/// Identifier of a commit: an opaque string of bytes, compared byte by byte.
#[derive(Debug, Hash)]
pub struct CommitId {
    bytes: Vec<u8>,
}

impl View for CommitId {
    type V = Seq<u8>;

    closed spec fn view(&self) -> Seq<u8> {
        self.bytes@
    }
}

impl CommitId {
    /// The identifier made of `bytes`.
    pub fn new(bytes: Vec<u8>) -> (id: CommitId)
        ensures
            id@ == bytes@,
    {
        CommitId { bytes }
    }

    /// The identifier made of a copy of `bytes`.
    pub fn from_bytes(bytes: &[u8]) -> (id: CommitId)
        ensures
            id@ == bytes@,
    {
        let mut copy: Vec<u8> = Vec::new();
        let mut i: usize = 0;
        while i < bytes.len()
            invariant
                0 <= i <= bytes@.len(),
                copy@ == bytes@.take(i as int),
            decreases bytes@.len() - i,
        {
            copy.push(bytes[i]);
            i = i + 1;
            proof {
                assert(copy@ =~= bytes@.take(i as int));
            }
        }
        proof {
            assert(bytes@.take(i as int) =~= bytes@);
        }
        CommitId { bytes: copy }
    }

    /// The bytes of the identifier.
    pub fn as_bytes(&self) -> (bytes: &[u8])
        ensures
            bytes@ == self@,
    {
        self.bytes.as_slice()
    }
}

impl Clone for CommitId {
    fn clone(&self) -> (id: CommitId)
        ensures
            id@ == self@,
    {
        CommitId::from_bytes(self.bytes.as_slice())
    }
}

impl PartialEq for CommitId {
    fn eq(&self, other: &CommitId) -> (same: bool) {
        if self.bytes.len() != other.bytes.len() {
            proof {
                assert(self@.len() != other@.len());
            }
            return false;
        }
        let mut i: usize = 0;
        while i < self.bytes.len()
            invariant
                0 <= i <= self@.len(),
                self@.len() == other@.len(),
                self@.take(i as int) == other@.take(i as int),
            decreases self@.len() - i,
        {
            if self.bytes[i] != other.bytes[i] {
                return false;
            }
            proof {
                assert(self@.take(i + 1) =~= self@.take(i as int).push(self@[i as int]));
                assert(other@.take(i + 1) =~= other@.take(i as int).push(other@[i as int]));
            }
            i = i + 1;
        }
        proof {
            assert(self@.take(i as int) =~= self@);
            assert(other@.take(i as int) =~= other@);
        }
        true
    }
}

impl PartialEqSpecImpl for CommitId {
    open spec fn obeys_eq_spec() -> bool {
        true
    }

    open spec fn eq_spec(&self, other: &CommitId) -> bool {
        self@ == other@
    }
}

impl Eq for CommitId {

}

/// How an edge reaches its target.
#[derive(Clone, Copy, Debug, PartialEq, Eq, Structural)]
pub enum GraphEdgeType {
    /// The target is not in the visible set.
    Missing,
    /// The target is a parent.
    Direct,
    /// The target is an ancestor, reached over commits that are left out.
    Indirect,
}

/// An edge of the commit graph, from the node that holds it to `target`.
#[derive(Debug, PartialEq, Eq)]
pub struct GraphEdge<N> {
    pub target: N,
    pub edge_type: GraphEdgeType,
}

impl<N: Clone> Clone for GraphEdge<N> {
    fn clone(&self) -> (edge: GraphEdge<N>)
        ensures
            edge.edge_type == self.edge_type,
            cloned(self.target, edge.target),
    {
        GraphEdge { target: self.target.clone(), edge_type: self.edge_type }
    }
}

impl<N> GraphEdge<N> {
    /// An edge to a target that is not in the visible set.
    pub fn missing(target: N) -> (edge: GraphEdge<N>)
        ensures
            edge.target == target,
            edge.edge_type == GraphEdgeType::Missing,
    {
        GraphEdge { target, edge_type: GraphEdgeType::Missing }
    }

    /// An edge to a parent.
    pub fn direct(target: N) -> (edge: GraphEdge<N>)
        ensures
            edge.target == target,
            edge.edge_type == GraphEdgeType::Direct,
    {
        GraphEdge { target, edge_type: GraphEdgeType::Direct }
    }

    /// An edge to an ancestor that is no parent.
    pub fn indirect(target: N) -> (edge: GraphEdge<N>)
        ensures
            edge.target == target,
            edge.edge_type == GraphEdgeType::Indirect,
    {
        GraphEdge { target, edge_type: GraphEdgeType::Indirect }
    }
}

} // verus!
