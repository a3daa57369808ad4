use vstd::prelude::*;

verus! {

/// Why a character was rejected as a node identifier.
#[derive(Debug)]
pub enum NodeIDError {
    NotSingleCharacter,
    NotUppercase,
}

/// Identifier of one mesh node: a single uppercase letter.
#[derive(Copy, Clone, Debug, PartialEq, Eq, Structural, Hash)]
pub struct NodeID(pub char);

impl NodeID {
    /// Wraps a character as a node identifier.
    pub fn new(c: char) -> (r: Self)
        ensures
            r == NodeID(c),
    {
        NodeID(c)
    }
}

} // verus!
