use vstd::prelude::*;

use crate::kademlia::id::{Distance, HasId, Id, xor_seq};

pub use crate::kademlia::pair::Pair as DistancePair;

verus! {

/// A node together with its distance to some identifier (usually the local
/// node's). Pairs are ordered by distance alone.
pub struct Pair<Node, const ID_LEN: usize>(pub Distance<ID_LEN>, pub Node);

/// Whether `==` on values of `Node` is spec equality.
pub open spec fn node_eq_is_equality<Node: PartialEq>() -> bool {
    vstd::laws_eq::obeys_concrete_eq::<Node>()
}

/// Compares two nodes with `==`, which is equality when
/// `node_eq_is_equality` holds.
pub fn nodes_equal<Node: PartialEq>(a: &Node, b: &Node) -> (r: bool)
    requires
        node_eq_is_equality::<Node>(),
    ensures
        r == (*a == *b),
{
    proof {
        reveal(vstd::laws_eq::obeys_concrete_eq);
    }
    a == b
}

impl<Node, const ID_LEN: usize> Pair<Node, ID_LEN> {
    /// The distance.
    pub fn distance(&self) -> (d: &Distance<ID_LEN>)
        ensures
            *d == self.0,
    {
        &self.0
    }

    /// The node.
    pub fn node(&self) -> (n: &Node)
        ensures
            *n == self.1,
    {
        &self.1
    }

    /// The distance and the node.
    pub fn into_parts(self) -> (parts: (Distance<ID_LEN>, Node))
        ensures
            parts == (self.0, self.1),
    {
        (self.0, self.1)
    }

    /// The node alone.
    pub fn into_node(self) -> (n: Node)
        ensures
            n == self.1,
    {
        self.1
    }

    /// The pair of a distance and a node.
    pub fn from_parts(parts: (Distance<ID_LEN>, Node)) -> (p: Self)
        ensures
            p.0 == parts.0,
            p.1 == parts.1,
    {
        Pair(parts.0, parts.1)
    }

    /// The pair of `node` and its distance to `id`.
    pub fn from_node(node: Node, id: &Id<ID_LEN>) -> (p: Self)
        where
            Node: HasId<ID_LEN>,
        ensures
            p.0.0@ == xor_seq(id.0@, node.spec_id().0@),
            p.1 == node,
    {
        let d = id.xor_distance(node.id());
        Pair(d, node)
    }

    /// Whether two pairs have the same distance and the same node.
    pub fn same_as(&self, other: &Self) -> (r: bool)
        where
            Node: PartialEq,
        requires
            node_eq_is_equality::<Node>(),
        ensures
            r == (self.0 == other.0 && self.1 == other.1),
    {
        self.0.same_as(&other.0) && nodes_equal(&self.1, &other.1)
    }

    /// Whether this pair's distance is smaller than the other's.
    pub fn is_less_than(&self, other: &Self) -> (r: bool)
        ensures
            r == (self.0.value() < other.0.value()),
    {
        self.0.is_less_than(&other.0)
    }
}

} // verus!
