//! The side of the display: the graph model and what it is made of.
use vstd::prelude::*;

pub mod draw;
pub mod graph;
pub mod id;
pub mod link;
pub mod node;
pub mod port;

verus! {

/// Why the graph model left a change undone.
#[derive(Debug, Clone, Copy, PartialEq, Eq, Structural)]
pub enum GraphError {
    /// No logical node has the name given.
    UnknownNode,
    /// The logical node holds no device node with the identifier given.
    UnknownPwNode,
    /// No link has the identifier given.
    UnknownLink,
}

/// A request of the display to the engine.
#[derive(Debug, Clone, Copy, PartialEq, Eq, Structural)]
pub enum UiMessage {
    RemoveLink(u32),
    AddLink { from_port: u32, to_port: u32, from_node: u32, to_node: u32 },
    Exit,
}

} // verus!
