//! Dense integer identities of shapes and of graph nodes.

use vstd::prelude::*;

verus! {

/// Identity of a node of the state graph: its rank in creation order.
#[derive(Clone, Copy, Debug, PartialEq, Eq, Structural, PartialOrd, Ord, Hash)]
pub struct NodeId(pub u32);

impl NodeId {
    /// The node of rank `x`.
    pub fn new(x: usize) -> (r: Self)
        requires
            x <= u32::MAX,
        ensures
            r.0 == x,
    {
        NodeId(x as u32)
    }

    /// The rank of the node.
    pub fn index(self) -> (r: usize)
        ensures
            r == self.0,
    {
        self.0 as usize
    }
}

/// Identity of a shape: its compiled index.
#[derive(Clone, Copy, Debug, PartialEq, Eq, Structural, PartialOrd, Ord, Hash)]
pub struct ShapeId(pub u32);

impl ShapeId {
    /// The shape of compiled index `x`.
    pub fn new(x: usize) -> (r: Self)
        requires
            x <= u32::MAX,
        ensures
            r.0 == x,
    {
        ShapeId(x as u32)
    }

    /// The compiled index of the shape.
    pub fn index(self) -> (r: usize)
        ensures
            r == self.0,
    {
        self.0 as usize
    }
}

/// The compiled indices that a sequence of shape identities names.
pub open spec fn indices(ids: Seq<ShapeId>) -> Seq<int> {
    Seq::new(ids.len(), |k: int| ids[k].0 as int)
}

} // verus!
