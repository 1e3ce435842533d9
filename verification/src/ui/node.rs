//! Logical nodes, and the device nodes that each stands for.
use super::id::Id;
use super::port::{Port, PortView};
use super::GraphError;
use crate::keyed::{
    has_key, index_of_key, lemma_found, lemma_put, lemma_without, put, unique_keys, views, without,
    Keyed,
};
use crate::text::text_of;
use crate::pipewire_impl::MediaType;
use std::collections::HashMap;
use vstd::prelude::*;

verus! {

broadcast use vstd::std_specs::hash::group_hash_axioms;

/// Where the display has put a node. The two coordinates are those of the
/// renderer, each carried as the bits of its 32-bit value; they are stored
/// and handed back, never computed on.
#[derive(Debug, Clone, Copy, PartialEq, Eq, Structural)]
pub struct Position {
    pub x: u32,
    pub y: u32,
}

/// One node of the engine: its identifier there, what it carries, and its
/// ports by their identifiers.
#[derive(Debug)]
pub struct PwNode {
    id: u32,
    description: Option<String>,
    media_type: Option<MediaType>,
    ports: HashMap<u32, Port>,
}

/// The mathematical value of a [`PwNode`].
pub struct PwNodeView {
    pub id: u32,
    pub description: Option<Seq<char>>,
    pub media_type: Option<MediaType>,
    pub ports: Map<u32, PortView>,
}

/// The views of the ports of `ports`, under the same identifiers.
pub open spec fn port_views(ports: Map<u32, Port>) -> Map<u32, PortView> {
    ports.map_values(|p: Port| p@)
}

impl Keyed for PwNodeView {
    type Key = u32;

    open spec fn key(self) -> u32 {
        self.id
    }
}

impl PwNodeView {
    /// Every port is filed under its own identifier.
    pub open spec fn wf(self) -> bool {
        forall|id: u32| self.ports.contains_key(id) ==> (#[trigger] self.ports[id]).id == id
    }

    /// The device node with `port` filed under its identifier, in the place
    /// of the port that was filed there.
    pub open spec fn add_port(self, port: PortView) -> PwNodeView {
        PwNodeView {
            id: self.id,
            description: self.description,
            media_type: self.media_type,
            ports: self.ports.insert(port.id, port),
        }
    }

    /// The device node without the port `port_id`.
    pub open spec fn remove_port(self, port_id: u32) -> PwNodeView {
        PwNodeView {
            id: self.id,
            description: self.description,
            media_type: self.media_type,
            ports: self.ports.remove(port_id),
        }
    }
}

impl View for PwNode {
    type V = PwNodeView;

    closed spec fn view(&self) -> PwNodeView {
        PwNodeView {
            id: self.id,
            description: text_of(self.description),
            media_type: self.media_type,
            ports: port_views(self.ports@),
        }
    }
}

impl PwNode {
    /// A device node without ports.
    pub fn new(id: u32, description: Option<String>, media_type: Option<MediaType>) -> (n: Self)
        ensures
            n@ == (PwNodeView {
                id,
                description: text_of(description),
                media_type,
                ports: Map::empty(),
            }),
            n@.wf(),
    {
        let n = Self { id, description, media_type, ports: HashMap::new() };
        assert(n@.ports =~= Map::empty());
        n
    }

    pub fn id(&self) -> (r: u32)
        ensures
            r == self@.id,
    {
        self.id
    }

    pub fn description(&self) -> (r: &Option<String>)
        ensures
            text_of(*r) == self@.description,
    {
        &self.description
    }

    pub fn media_type(&self) -> (r: Option<MediaType>)
        ensures
            r == self@.media_type,
    {
        self.media_type
    }

    /// The ports, by their identifiers.
    pub fn ports(&self) -> (r: &HashMap<u32, Port>)
        ensures
            port_views(r@) == self@.ports,
    {
        &self.ports
    }

    /// Adds `port`; a port with the same identifier gives way to it.
    pub fn add_port(&mut self, port: Port)
        requires
            old(self)@.wf(),
        ensures
            final(self)@ == old(self)@.add_port(port@),
            final(self)@.wf(),
    {
        self.ports.insert(port.id(), port);
        assert(self@.ports =~= old(self)@.ports.insert(port@.id, port@));
    }

    /// Removes the port `port_id`, if there is one.
    pub fn remove_port(&mut self, port_id: u32)
        requires
            old(self)@.wf(),
        ensures
            final(self)@ == old(self)@.remove_port(port_id),
            final(self)@.wf(),
    {
        self.ports.remove(&port_id);
        assert(self@.ports =~= old(self)@.ports.remove(port_id));
    }
}

/// What the display shows as one node: every device node of one name.
#[derive(Debug)]
pub struct Node {
    id: Id,
    name: String,
    pw_nodes: Vec<PwNode>,
    position: Option<Position>,
}

/// The mathematical value of a [`Node`].
pub struct NodeView {
    pub id: Id,
    pub name: Seq<char>,
    pub pw_nodes: Seq<PwNodeView>,
    pub position: Option<Position>,
}

impl Keyed for NodeView {
    type Key = Seq<char>;

    open spec fn key(self) -> Seq<char> {
        self.name
    }
}

impl NodeView {
    /// No device identifier occurs twice, and no port identifier occurs
    /// twice in a device node.
    pub open spec fn wf(self) -> bool {
        &&& unique_keys(self.pw_nodes)
        &&& forall|i: int| 0 <= i < self.pw_nodes.len() ==> (#[trigger] self.pw_nodes[i]).wf()
    }

    pub open spec fn with_pw_nodes(self, pw_nodes: Seq<PwNodeView>) -> NodeView {
        NodeView { id: self.id, name: self.name, pw_nodes, position: self.position }
    }

    pub open spec fn with_position(self, position: Option<Position>) -> NodeView {
        NodeView { id: self.id, name: self.name, pw_nodes: self.pw_nodes, position }
    }

    /// The node with `device` in the place of the device node that has its
    /// identifier, or added as the last.
    pub open spec fn add_pw_node(self, device: PwNodeView) -> NodeView {
        self.with_pw_nodes(put(self.pw_nodes, device))
    }

    /// The node without the device node `id`.
    pub open spec fn remove_pw_node(self, id: u32) -> NodeView {
        self.with_pw_nodes(without(self.pw_nodes, id))
    }

    /// The node with `port` added to the device node `node_id`; the node
    /// itself where it holds no such device node.
    pub open spec fn add_port(self, node_id: u32, port: PortView) -> NodeView {
        if has_key(self.pw_nodes, node_id) {
            let i = index_of_key(self.pw_nodes, node_id);
            self.with_pw_nodes(self.pw_nodes.update(i, self.pw_nodes[i].add_port(port)))
        } else {
            self
        }
    }

    /// The node with the port `port_id` removed from the device node
    /// `node_id`; the node itself where it holds no such device node.
    pub open spec fn remove_port(self, node_id: u32, port_id: u32) -> NodeView {
        if has_key(self.pw_nodes, node_id) {
            let i = index_of_key(self.pw_nodes, node_id);
            self.with_pw_nodes(self.pw_nodes.update(i, self.pw_nodes[i].remove_port(port_id)))
        } else {
            self
        }
    }
}

/// A well-formed node that gets a well-formed device node is well formed,
/// and not empty.
pub proof fn lemma_node_add_pw_node(n: NodeView, device: PwNodeView)
    requires
        n.wf(),
        device.wf(),
    ensures
        n.add_pw_node(device).wf(),
        n.add_pw_node(device).pw_nodes.len() > 0,
{
    lemma_put(n.pw_nodes, device);
    let a = put(n.pw_nodes, device);
    assert forall|i: int| 0 <= i < a.len() implies (#[trigger] a[i]).wf() by {
        if has_key(n.pw_nodes, device.id) && i != index_of_key(n.pw_nodes, device.id) {
            assert(a[i] == n.pw_nodes[i]);
        } else if !has_key(n.pw_nodes, device.id) && i < n.pw_nodes.len() {
            assert(a[i] == n.pw_nodes[i]);
        }
    }
}

/// A well-formed node that loses a device node is well formed.
pub proof fn lemma_node_remove_pw_node(n: NodeView, id: u32)
    requires
        n.wf(),
    ensures
        n.remove_pw_node(id).wf(),
{
    lemma_without(n.pw_nodes, id);
    let r = without(n.pw_nodes, id);
    assert forall|i: int| 0 <= i < r.len() implies (#[trigger] r[i]).wf() by {
        if has_key(n.pw_nodes, id) {
            let at = index_of_key(n.pw_nodes, id);
            assert(r[i] == n.pw_nodes[if i < at { i } else { i + 1 }]);
        }
    }
}

/// Changing one device node of a well-formed node into a well-formed one of
/// the same identifier leaves the node well formed.
proof fn lemma_node_update(n: NodeView, at: int, device: PwNodeView)
    requires
        n.wf(),
        0 <= at < n.pw_nodes.len(),
        device.wf(),
        device.id == n.pw_nodes[at].id,
    ensures
        n.with_pw_nodes(n.pw_nodes.update(at, device)).wf(),
{
    let p = n.pw_nodes.update(at, device);
    assert forall|i: int| 0 <= i < p.len() implies (#[trigger] p[i]).wf() && p[i].id
        == n.pw_nodes[i].id by {
        assert(n.pw_nodes[i].wf());
    }
    assert forall|i: int, j: int| 0 <= i < p.len() && 0 <= j < p.len() && i != j implies (
    #[trigger] p[i]).key() != (#[trigger] p[j]).key() by {
        assert(n.pw_nodes[i].key() != n.pw_nodes[j].key());
    }
}

/// A well-formed node that gets a port is well formed, with as many device
/// nodes as before.
pub proof fn lemma_node_add_port(n: NodeView, node_id: u32, port: PortView)
    requires
        n.wf(),
    ensures
        n.add_port(node_id, port).wf(),
        n.add_port(node_id, port).pw_nodes.len() == n.pw_nodes.len(),
{
    if has_key(n.pw_nodes, node_id) {
        let at = index_of_key(n.pw_nodes, node_id);
        assert(n.pw_nodes[at].wf());
        lemma_node_update(n, at, n.pw_nodes[at].add_port(port));
    }
}

/// A well-formed node that loses a port is well formed, with as many device
/// nodes as before.
pub proof fn lemma_node_remove_port(n: NodeView, node_id: u32, port_id: u32)
    requires
        n.wf(),
    ensures
        n.remove_port(node_id, port_id).wf(),
        n.remove_port(node_id, port_id).pw_nodes.len() == n.pw_nodes.len(),
{
    if has_key(n.pw_nodes, node_id) {
        let at = index_of_key(n.pw_nodes, node_id);
        assert(n.pw_nodes[at].wf());
        lemma_node_update(n, at, n.pw_nodes[at].remove_port(port_id));
    }
}

impl View for Node {
    type V = NodeView;

    closed spec fn view(&self) -> NodeView {
        NodeView {
            id: self.id,
            name: self.name@,
            pw_nodes: views(self.pw_nodes@),
            position: self.position,
        }
    }
}

impl Node {
    /// A node without device nodes and without a position.
    pub fn new(id: Id, name: String) -> (n: Self)
        ensures
            n@ == (NodeView { id, name: name@, pw_nodes: Seq::empty(), position: None }),
            n@.wf(),
    {
        let n = Self { id, name, pw_nodes: Vec::new(), position: None };
        assert(n@.pw_nodes =~= Seq::empty());
        n
    }

    pub fn name(&self) -> (r: &str)
        ensures
            r@ == self@.name,
    {
        self.name.as_str()
    }

    pub fn id(&self) -> (r: Id)
        ensures
            r == self@.id,
    {
        self.id
    }

    /// Where the display last put the node, if it has told.
    pub fn position(&self) -> (r: Option<Position>)
        ensures
            r == self@.position,
    {
        self.position
    }

    pub fn set_position(&mut self, position: Option<Position>)
        ensures
            final(self)@ == old(self)@.with_position(position),
    {
        self.position = position;
    }

    /// The device nodes, in the order in which their identifiers first came.
    pub fn pw_nodes(&self) -> (r: &Vec<PwNode>)
        ensures
            views(r@) == self@.pw_nodes,
    {
        &self.pw_nodes
    }

    fn pw_node_index(&self, id: u32) -> (r: Option<usize>)
        ensures
            match r {
                Some(i) => i < self@.pw_nodes.len() && self@.pw_nodes[i as int].id == id,
                None => !has_key(self@.pw_nodes, id),
            },
    {
        let mut i: usize = 0;
        while i < self.pw_nodes.len()
            invariant
                i <= self.pw_nodes.len(),
                forall|j: int| 0 <= j < i ==> (#[trigger] self@.pw_nodes[j]).id != id,
            decreases self.pw_nodes.len() - i,
        {
            if self.pw_nodes[i].id() == id {
                return Some(i);
            }
            i += 1;
        }
        None
    }

    /// Adds a device node without ports; a device node with the same
    /// identifier gives way to it.
    pub fn add_pw_node(
        &mut self,
        id: u32,
        description: Option<String>,
        media_type: Option<MediaType>,
    )
        requires
            old(self)@.wf(),
        ensures
            final(self)@ == old(self)@.add_pw_node(
                PwNodeView {
                    id,
                    description: text_of(description),
                    media_type,
                    ports: Map::empty(),
                },
            ),
            final(self)@.wf(),
    {
        let device = PwNode::new(id, description, media_type);
        proof {
            lemma_put(self@.pw_nodes, device@);
        }
        match self.pw_node_index(id) {
            Some(i) => {
                proof {
                    lemma_found(self@.pw_nodes, id, i as int);
                }
                self.pw_nodes[i] = device;
            },
            None => {
                self.pw_nodes.push(device);
            },
        }
        assert(self@.pw_nodes =~= put(old(self)@.pw_nodes, device@));
    }

    /// Removes the device node `id`, if there is one, and says whether no
    /// device node is left.
    pub fn remove_pw_node(&mut self, id: u32) -> (empty: bool)
        requires
            old(self)@.wf(),
        ensures
            final(self)@ == old(self)@.remove_pw_node(id),
            final(self)@.wf(),
            empty == (final(self)@.pw_nodes.len() == 0),
    {
        proof {
            lemma_without(self@.pw_nodes, id);
        }
        match self.pw_node_index(id) {
            Some(i) => {
                proof {
                    lemma_found(self@.pw_nodes, id, i as int);
                }
                self.pw_nodes.remove(i);
            },
            None => {},
        }
        assert(self@.pw_nodes =~= without(old(self)@.pw_nodes, id));
        self.pw_nodes.is_empty()
    }

    /// Adds `port` to the device node `node_id`. Without such a device node
    /// the node stays as it is.
    pub fn add_port(&mut self, node_id: u32, port: Port) -> (r: Result<(), GraphError>)
        requires
            old(self)@.wf(),
        ensures
            final(self)@ == old(self)@.add_port(node_id, port@),
            final(self)@.wf(),
            r == if has_key(old(self)@.pw_nodes, node_id) {
                Ok::<(), GraphError>(())
            } else {
                Err(GraphError::UnknownPwNode)
            },
    {
        match self.pw_node_index(node_id) {
            Some(i) => {
                proof {
                    lemma_found(self@.pw_nodes, node_id, i as int);
                }
                self.pw_nodes[i].add_port(port);
                assert(self@.pw_nodes =~= old(self)@.pw_nodes.update(
                    i as int,
                    old(self)@.pw_nodes[i as int].add_port(port@),
                ));
                Ok(())
            },
            None => Err(GraphError::UnknownPwNode),
        }
    }

    /// Removes the port `port_id` from the device node `node_id`. Without
    /// such a device node the node stays as it is.
    pub fn remove_port(&mut self, node_id: u32, port_id: u32) -> (r: Result<(), GraphError>)
        requires
            old(self)@.wf(),
        ensures
            final(self)@ == old(self)@.remove_port(node_id, port_id),
            final(self)@.wf(),
            r == if has_key(old(self)@.pw_nodes, node_id) {
                Ok::<(), GraphError>(())
            } else {
                Err(GraphError::UnknownPwNode)
            },
    {
        match self.pw_node_index(node_id) {
            Some(i) => {
                proof {
                    lemma_found(self@.pw_nodes, node_id, i as int);
                }
                self.pw_nodes[i].remove_port(port_id);
                assert(self@.pw_nodes =~= old(self)@.pw_nodes.update(
                    i as int,
                    old(self)@.pw_nodes[i as int].remove_port(port_id),
                ));
                Ok(())
            },
            None => Err(GraphError::UnknownPwNode),
        }
    }
}

} // verus!
