//! A port of a device node.
use crate::pipewire_impl::PortType;
use vstd::prelude::*;

verus! {

#[derive(Debug)]
pub struct Port {
    parent_pw_node_id: u32,
    id: u32,
    name: String,
    port_type: PortType,
}

/// A [`Port`] with its name as a sequence of characters.
pub struct PortView {
    pub id: u32,
    pub parent_pw_node_id: u32,
    pub name: Seq<char>,
    pub port_type: PortType,
}

impl View for Port {
    type V = PortView;

    closed spec fn view(&self) -> PortView {
        PortView {
            id: self.id,
            parent_pw_node_id: self.parent_pw_node_id,
            name: self.name@,
            port_type: self.port_type,
        }
    }
}

impl Port {
    pub fn new(id: u32, parent_pw_node_id: u32, name: String, port_type: PortType) -> (p: Self)
        ensures
            p@ == (PortView { id, parent_pw_node_id, name: name@, port_type }),
    {
        Self { id, parent_pw_node_id, name, port_type }
    }

    pub fn id(&self) -> (r: u32)
        ensures
            r == self@.id,
    {
        self.id
    }

    pub fn parent_pw_node_id(&self) -> (r: u32)
        ensures
            r == self@.parent_pw_node_id,
    {
        self.parent_pw_node_id
    }

    pub fn name(&self) -> (r: &str)
        ensures
            r@ == self@.name,
    {
        self.name.as_str()
    }

    pub fn port_type(&self) -> (r: PortType)
        ensures
            r == self@.port_type,
    {
        self.port_type
    }
}

} // verus!
