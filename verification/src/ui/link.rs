//! A link between two ports, as the display draws it.
use super::id::Id;
use crate::keyed::Keyed;
use vstd::prelude::*;

verus! {

/// A link from a port of one logical node to a port of another.
#[derive(Debug, Clone, Copy, PartialEq, Eq, Structural)]
pub struct Link {
    pub id: u32,
    pub from_node: Id,
    pub to_node: Id,
    pub from_port: u32,
    pub to_port: u32,
    pub active: bool,
}

impl Link {
    /// Whether the link leaves the node it enters.
    pub fn is_self_link(&self) -> (r: bool)
        ensures
            r == (self.from_node == self.to_node),
    {
        self.from_node.0 == self.to_node.0
    }
}

impl Keyed for Link {
    type Key = u32;

    open spec fn key(self) -> u32 {
        self.id
    }
}

} // verus!
