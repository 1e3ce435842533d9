//! The graph that the display draws: logical nodes by name, links by
//! identifier, and the allocator of the logical nodes' identifiers.
use super::id::{lemma_allocate, lemma_free, Id, IdAllocator, IdAllocatorView};
use super::link::Link;
use super::node::{
    lemma_node_add_port, lemma_node_add_pw_node, lemma_node_remove_port, lemma_node_remove_pw_node,
    Node, NodeView, Position, PwNodeView,
};
use super::port::{Port, PortView};
use super::{GraphError, UiMessage};
use crate::keyed::{
    get, has_key, index_of_key, lemma_found, lemma_put, lemma_without, put, unique_keys, views,
    without, Keyed,
};
use crate::pipewire_impl::state::GlobalObjectView;
use crate::pipewire_impl::{
    is_link, link_outcome, node_name_in, request_for, HandleError, LinkInfo, MediaType,
    PipewireMessage, PipewireMessageView, Request,
};
use crate::text::{same_text, text_of};
use vstd::prelude::*;

verus! {

/// Whether `link` starts or ends at the logical node `id`.
pub open spec fn touches(link: Link, id: Id) -> bool {
    link.from_node == id || link.to_node == id
}

/// The links of `links` that neither start nor end at `id`, in order.
pub open spec fn links_clear_of(links: Seq<Link>, id: Id) -> Seq<Link>
    decreases links.len(),
{
    if links.len() == 0 {
        links
    } else {
        let rest = links_clear_of(links.drop_last(), id);
        if touches(links.last(), id) {
            rest
        } else {
            rest.push(links.last())
        }
    }
}

/// [`links_clear_of`] keeps exactly the links that do not touch `id`, and
/// keeps their identifiers unique.
pub proof fn lemma_links_clear_of(links: Seq<Link>, id: Id)
    ensures
        forall|i: int|
            0 <= i < links_clear_of(links, id).len() ==> links.contains(
                #[trigger] links_clear_of(links, id)[i],
            ) && !touches(links_clear_of(links, id)[i], id),
        forall|j: int|
            0 <= j < links.len() && !touches(#[trigger] links[j], id) ==> links_clear_of(
                links,
                id,
            ).contains(links[j]),
        unique_keys(links) ==> unique_keys(links_clear_of(links, id)),
    decreases links.len(),
{
    let r = links_clear_of(links, id);
    if links.len() > 0 {
        let front = links.drop_last();
        let rest = links_clear_of(front, id);
        lemma_links_clear_of(front, id);
        let n = links.len() - 1;
        assert forall|i: int| 0 <= i < r.len() implies links.contains(#[trigger] r[i]) && !touches(
            r[i],
            id,
        ) by {
            if i < rest.len() {
                assert(r[i] == rest[i]);
                assert(front.contains(rest[i]));
                let j = front.index_of(rest[i]);
                assert(links[j] == rest[i]);
            } else {
                assert(r[i] == links[n]);
            }
        }
        assert forall|j: int| 0 <= j < links.len() && !touches(#[trigger] links[j], id)
            implies r.contains(
            links[j],
        ) by {
            if j < n {
                assert(front[j] == links[j]);
                assert(rest.contains(front[j]));
                let i = rest.index_of(front[j]);
                assert(r[i] == links[j]);
            } else {
                assert(r[rest.len() as int] == links[j]);
            }
        }
        if unique_keys(links) {
            assert(unique_keys(front)) by {
                assert forall|a: int, b: int|
                    0 <= a < front.len() && 0 <= b < front.len() && a != b implies (
                #[trigger] front[a]).key() != (#[trigger] front[b]).key() by {
                    assert(links[a].key() != links[b].key());
                }
            }
            assert forall|a: int, b: int| 0 <= a < r.len() && 0 <= b < r.len() && a != b implies (
            #[trigger] r[a]).key() != (#[trigger] r[b]).key() by {
                if a < rest.len() && b < rest.len() {
                    assert(rest[a].key() != rest[b].key());
                } else {
                    let c = if a < rest.len() { a } else { b };
                    assert(front.contains(rest[c]));
                    let j = front.index_of(rest[c]);
                    assert(links[j].key() != links[n].key());
                }
            }
        }
    }
}

/// The mathematical value of a [`Graph`].
pub struct GraphView {
    /// The logical nodes, in the order in which their names first came.
    pub nodes: Seq<NodeView>,
    /// The links, in the order in which their identifiers first came.
    pub links: Seq<Link>,
    /// The allocator of the logical nodes' identifiers.
    pub ids: IdAllocatorView,
}

impl GraphView {
    /// The graph without nodes and links, before any identifier was issued.
    pub open spec fn empty() -> GraphView {
        GraphView {
            nodes: Seq::empty(),
            links: Seq::empty(),
            ids: IdAllocatorView { freed: Seq::empty(), next_id: 0 },
        }
    }

    /// Some logical node has the identifier `id`.
    pub open spec fn live(self, id: Id) -> bool {
        exists|i: int| 0 <= i < self.nodes.len() && (#[trigger] self.nodes[i]).id == id
    }

    /// Where the logical node with the identifier `id` stands, if it is live.
    pub open spec fn index_of_id(self, id: Id) -> int {
        choose|i: int| 0 <= i < self.nodes.len() && (#[trigger] self.nodes[i]).id == id
    }

    /// The identifier of the logical node called `name`.
    pub open spec fn id_of(self, name: Seq<char>) -> Option<Id> {
        match get(self.nodes, name) {
            Some(node) => Some(node.id),
            None => None,
        }
    }

    /// What every operation keeps: names, device, port and link
    /// identifiers are unique; every logical node holds a device node and has
    /// an identifier of its own, which is issued and not free; every link
    /// starts and ends at a logical node.
    pub open spec fn wf(self) -> bool {
        &&& unique_keys(self.nodes)
        &&& forall|i: int|
            0 <= i < self.nodes.len() ==> (#[trigger] self.nodes[i]).wf()
                && self.nodes[i].pw_nodes.len() > 0
        &&& forall|i: int, j: int|
            0 <= i < self.nodes.len() && 0 <= j < self.nodes.len() && i != j ==> (
            #[trigger] self.nodes[i]).id != (#[trigger] self.nodes[j]).id
        &&& self.ids.wf()
        &&& forall|i: int|
            0 <= i < self.nodes.len() ==> self.ids.issued((#[trigger] self.nodes[i]).id)
                && !self.ids.is_free(self.nodes[i].id)
        &&& unique_keys(self.links)
        &&& forall|k: int|
            0 <= k < self.links.len() ==> self.live((#[trigger] self.links[k]).from_node)
                && self.live(self.links[k].to_node)
    }

    pub open spec fn with_nodes(self, nodes: Seq<NodeView>) -> GraphView {
        GraphView { nodes, links: self.links, ids: self.ids }
    }

    pub open spec fn with_links(self, links: Seq<Link>) -> GraphView {
        GraphView { nodes: self.nodes, links, ids: self.ids }
    }

    /// Whether a device node can be added under `name`: the name is known,
    /// or an identifier can be issued for it.
    pub open spec fn can_add_node(self, name: Seq<char>) -> bool {
        has_key(self.nodes, name) || self.ids.can_allocate()
    }

    /// The graph after a device node came under `name`: it joins the logical
    /// node of that name, which is made with a fresh identifier if there is
    /// none yet.
    pub open spec fn add_node(
        self,
        name: Seq<char>,
        id: u32,
        description: Option<Seq<char>>,
        media_type: Option<MediaType>,
    ) -> GraphView {
        let device = PwNodeView { id, description, media_type, ports: Map::empty() };
        if has_key(self.nodes, name) {
            let i = index_of_key(self.nodes, name);
            self.with_nodes(self.nodes.update(i, self.nodes[i].add_pw_node(device)))
        } else {
            GraphView {
                nodes: self.nodes.push(
                    NodeView { id: self.ids.next(), name, pw_nodes: seq![device], position: None },
                ),
                links: self.links,
                ids: self.ids.allocate(),
            }
        }
    }

    /// The graph after the device node `id` left the logical node `name`.
    /// A logical node that is left without device nodes goes too, with every
    /// link that touches it, and its identifier is handed back.
    pub open spec fn remove_node(self, name: Seq<char>, id: u32) -> GraphView {
        if has_key(self.nodes, name) {
            let i = index_of_key(self.nodes, name);
            let node = self.nodes[i].remove_pw_node(id);
            if node.pw_nodes.len() == 0 {
                GraphView {
                    nodes: self.nodes.remove(i),
                    links: links_clear_of(self.links, node.id),
                    ids: self.ids.free(node.id),
                }
            } else {
                self.with_nodes(self.nodes.update(i, node))
            }
        } else {
            self
        }
    }

    /// The graph after `port` came to the device node `node_id` of the
    /// logical node `name`; the graph itself where there is no such node.
    pub open spec fn add_port(self, name: Seq<char>, node_id: u32, port: PortView) -> GraphView {
        if has_key(self.nodes, name) {
            let i = index_of_key(self.nodes, name);
            self.with_nodes(self.nodes.update(i, self.nodes[i].add_port(node_id, port)))
        } else {
            self
        }
    }

    /// The graph after the port `port_id` left the device node `node_id` of
    /// the logical node `name`; the graph itself where there is no such node.
    pub open spec fn remove_port(self, name: Seq<char>, node_id: u32, port_id: u32) -> GraphView {
        if has_key(self.nodes, name) {
            let i = index_of_key(self.nodes, name);
            self.with_nodes(self.nodes.update(i, self.nodes[i].remove_port(node_id, port_id)))
        } else {
            self
        }
    }

    /// Whether a change to the device node `node_id` of `name` finds it.
    pub open spec fn find_pw_node(self, name: Seq<char>, node_id: u32) -> Result<(), GraphError> {
        if !has_key(self.nodes, name) {
            Err(GraphError::UnknownNode)
        } else if !has_key(self.nodes[index_of_key(self.nodes, name)].pw_nodes, node_id) {
            Err(GraphError::UnknownPwNode)
        } else {
            Ok(())
        }
    }

    /// The link that [`GraphView::add_link`] stores, where both names are
    /// known: between the logical nodes that have these names now, active.
    pub open spec fn resolve(
        self,
        id: u32,
        from_name: Seq<char>,
        to_name: Seq<char>,
        from_port: u32,
        to_port: u32,
    ) -> Option<Link> {
        if has_key(self.nodes, from_name) && has_key(self.nodes, to_name) {
            Some(
                Link {
                    id,
                    from_node: self.nodes[index_of_key(self.nodes, from_name)].id,
                    to_node: self.nodes[index_of_key(self.nodes, to_name)].id,
                    from_port,
                    to_port,
                    active: true,
                },
            )
        } else {
            None
        }
    }

    /// The graph after the link `id` came; a link of that identifier gives
    /// way to it. Where a name is not known the link is dropped.
    pub open spec fn add_link(
        self,
        id: u32,
        from_name: Seq<char>,
        to_name: Seq<char>,
        from_port: u32,
        to_port: u32,
    ) -> GraphView {
        match self.resolve(id, from_name, to_name, from_port, to_port) {
            Some(link) => self.with_links(put(self.links, link)),
            None => self,
        }
    }

    /// The graph after the link `id` left.
    pub open spec fn remove_link(self, id: u32) -> GraphView {
        self.with_links(without(self.links, id))
    }

    /// The graph after the display told where it put the logical node `id`.
    pub open spec fn set_position(self, id: Id, position: Option<Position>) -> GraphView {
        if self.live(id) {
            let i = self.index_of_id(id);
            self.with_nodes(self.nodes.update(i, self.nodes[i].with_position(position)))
        } else {
            self
        }
    }

    /// The graph after `message` was applied.
    pub open spec fn apply(self, message: PipewireMessageView) -> GraphView {
        match message {
            PipewireMessageView::NodeAdded { id, name, description, media_type } => self.add_node(
                name,
                id,
                description,
                media_type,
            ),
            PipewireMessageView::PortAdded { node_name, node_id, id, name, port_type } => {
                self.add_port(
                    node_name,
                    node_id,
                    PortView { id, parent_pw_node_id: node_id, name, port_type },
                )
            },
            PipewireMessageView::LinkAdded { id, from_node_name, to_node_name, from_port, to_port } => {
                self.add_link(id, from_node_name, to_node_name, from_port, to_port)
            },
            PipewireMessageView::LinkStateChanged { id, active } => self,
            PipewireMessageView::NodeRemoved { name, id } => self.remove_node(name, id),
            PipewireMessageView::PortRemoved { node_name, node_id, id } => self.remove_port(
                node_name,
                node_id,
                id,
            ),
            PipewireMessageView::LinkRemoved { id } => self.remove_link(id),
        }
    }

    /// Whether `message` finds what it speaks of, and if not, what is
    /// missing. A message that does not leaves the graph as it is.
    pub open spec fn outcome(self, message: PipewireMessageView) -> Result<(), GraphError> {
        match message {
            PipewireMessageView::NodeAdded { .. } => Ok(()),
            PipewireMessageView::PortAdded { node_name, node_id, .. } => self.find_pw_node(
                node_name,
                node_id,
            ),
            PipewireMessageView::LinkAdded { id, from_node_name, to_node_name, from_port, to_port } => {
                if self.resolve(id, from_node_name, to_node_name, from_port, to_port) is Some {
                    Ok(())
                } else {
                    Err(GraphError::UnknownNode)
                }
            },
            PipewireMessageView::LinkStateChanged { .. } => Ok(()),
            PipewireMessageView::NodeRemoved { name, .. } => if has_key(self.nodes, name) {
                Ok(())
            } else {
                Err(GraphError::UnknownNode)
            },
            PipewireMessageView::PortRemoved { node_name, node_id, .. } => self.find_pw_node(
                node_name,
                node_id,
            ),
            PipewireMessageView::LinkRemoved { id } => if has_key(self.links, id) {
                Ok(())
            } else {
                Err(GraphError::UnknownLink)
            },
        }
    }

    /// Whether `message` can be applied: only a new name needs anything,
    /// an identifier to issue.
    pub open spec fn can_apply(self, message: PipewireMessageView) -> bool {
        match message {
            PipewireMessageView::NodeAdded { name, .. } => self.can_add_node(name),
            _ => true,
        }
    }

    /// The graph after `messages` were applied, one after the other.
    pub open spec fn apply_all(self, messages: Seq<PipewireMessageView>) -> GraphView
        decreases messages.len(),
    {
        if messages.len() == 0 {
            self
        } else {
            self.apply_all(messages.drop_last()).apply(messages.last())
        }
    }

    /// Whether each of `messages` can be applied when its turn comes.
    pub open spec fn can_apply_all(self, messages: Seq<PipewireMessageView>) -> bool
        decreases messages.len(),
    {
        if messages.len() == 0 {
            true
        } else {
            self.can_apply_all(messages.drop_last()) && self.apply_all(
                messages.drop_last(),
            ).can_apply(messages.last())
        }
    }
}

/// In a well-formed graph a logical node stands where [`GraphView::index_of_id`]
/// says.
pub proof fn lemma_index_of_id(g: GraphView, i: int)
    requires
        g.wf(),
        0 <= i < g.nodes.len(),
    ensures
        g.live(g.nodes[i].id),
        g.index_of_id(g.nodes[i].id) == i,
{
    let c = g.index_of_id(g.nodes[i].id);
    assert(g.nodes[c].id == g.nodes[i].id);
}

/// A logical node stays live when the nodes are changed in place without
/// touching their identifiers.
proof fn lemma_live_kept(g: GraphView, nodes: Seq<NodeView>)
    requires
        nodes.len() == g.nodes.len(),
        forall|i: int| 0 <= i < nodes.len() ==> (#[trigger] nodes[i]).id == g.nodes[i].id,
    ensures
        forall|id: Id| g.live(id) ==> g.with_nodes(nodes).live(id),
{
    assert forall|id: Id| g.live(id) implies g.with_nodes(nodes).live(id) by {
        let i = choose|i: int| 0 <= i < g.nodes.len() && (#[trigger] g.nodes[i]).id == id;
        assert(nodes[i].id == id);
    }
}

/// Changing one logical node in place, keeping its name and identifier
/// and leaving it well formed and not empty, keeps the graph well formed.
proof fn lemma_update_node_wf(g: GraphView, i: int, node: NodeView)
    requires
        g.wf(),
        0 <= i < g.nodes.len(),
        node.id == g.nodes[i].id,
        node.name == g.nodes[i].name,
        node.wf(),
        node.pw_nodes.len() > 0,
    ensures
        g.with_nodes(g.nodes.update(i, node)).wf(),
{
    let nodes = g.nodes.update(i, node);
    let h = g.with_nodes(nodes);
    assert forall|a: int| 0 <= a < nodes.len() implies (#[trigger] nodes[a]).id == g.nodes[a].id
        && nodes[a].key() == g.nodes[a].key() by {}
    lemma_live_kept(g, nodes);
    assert(unique_keys(nodes)) by {
        assert forall|a: int, b: int| 0 <= a < nodes.len() && 0 <= b < nodes.len() && a != b
            implies (
        #[trigger] nodes[a]).key() != (#[trigger] nodes[b]).key() by {
            assert(g.nodes[a].key() != g.nodes[b].key());
        }
    }
    assert forall|a: int| 0 <= a < nodes.len() implies (#[trigger] nodes[a]).wf()
        && nodes[a].pw_nodes.len() > 0 by {
        if a != i {
            assert(g.nodes[a].wf());
        }
    }
    assert forall|a: int, b: int| 0 <= a < nodes.len() && 0 <= b < nodes.len() && a != b implies (
    #[trigger] nodes[a]).id != (#[trigger] nodes[b]).id by {
        assert(g.nodes[a].id != g.nodes[b].id);
    }
    assert forall|a: int| 0 <= a < nodes.len() implies h.ids.issued((#[trigger] nodes[a]).id)
        && !h.ids.is_free(nodes[a].id) by {
        assert(g.ids.issued(g.nodes[a].id));
    }
    assert forall|k: int| 0 <= k < h.links.len() implies h.live((#[trigger] h.links[k]).from_node)
        && h.live(h.links[k].to_node) by {
        assert(g.live(g.links[k].from_node));
    }
}

/// Every operation on a well-formed graph gives a well-formed graph.
pub proof fn lemma_apply_wf(g: GraphView, message: PipewireMessageView)
    requires
        g.wf(),
        g.can_apply(message),
    ensures
        g.apply(message).wf(),
{
    match message {
        PipewireMessageView::NodeAdded { id, name, description, media_type } => {
            lemma_add_node_wf(g, name, id, description, media_type);
        },
        PipewireMessageView::PortAdded { node_name, node_id, id, name, port_type } => {
            lemma_add_port_wf(
                g,
                node_name,
                node_id,
                PortView { id, parent_pw_node_id: node_id, name, port_type },
            );
        },
        PipewireMessageView::LinkAdded { id, from_node_name, to_node_name, from_port, to_port } => {
            lemma_add_link_wf(g, id, from_node_name, to_node_name, from_port, to_port);
        },
        PipewireMessageView::LinkStateChanged { id, active } => {},
        PipewireMessageView::NodeRemoved { name, id } => {
            lemma_remove_node_wf(g, name, id);
        },
        PipewireMessageView::PortRemoved { node_name, node_id, id } => {
            lemma_remove_port_wf(g, node_name, node_id, id);
        },
        PipewireMessageView::LinkRemoved { id } => {
            lemma_remove_link_wf(g, id);
        },
    }
}

/// Whatever messages come, in whatever order: the graph that starts empty
/// stays well formed.
pub proof fn lemma_apply_all_wf(messages: Seq<PipewireMessageView>)
    requires
        GraphView::empty().can_apply_all(messages),
    ensures
        GraphView::empty().apply_all(messages).wf(),
    decreases messages.len(),
{
    if messages.len() == 0 {
        assert(GraphView::empty().wf());
    } else {
        lemma_apply_all_wf(messages.drop_last());
        lemma_apply_wf(GraphView::empty().apply_all(messages.drop_last()), messages.last());
    }
}

/// Adding a device node keeps the graph well formed.
pub proof fn lemma_add_node_wf(
    g: GraphView,
    name: Seq<char>,
    id: u32,
    description: Option<Seq<char>>,
    media_type: Option<MediaType>,
)
    requires
        g.wf(),
        g.can_add_node(name),
    ensures
        g.add_node(name, id, description, media_type).wf(),
{
    let device = PwNodeView { id, description, media_type, ports: Map::empty() };
    let h = g.add_node(name, id, description, media_type);
    if has_key(g.nodes, name) {
        let i = index_of_key(g.nodes, name);
        assert(g.nodes[i].wf());
        lemma_node_add_pw_node(g.nodes[i], device);
        lemma_update_node_wf(g, i, g.nodes[i].add_pw_node(device));
    } else {
        lemma_allocate(g.ids);
        let fresh = g.ids.next();
        let node = NodeView { id: fresh, name, pw_nodes: seq![device], position: None };
        let n = g.nodes.len() as int;
        assert(h.nodes[n] == node);
        assert forall|a: int| 0 <= a < n implies (#[trigger] h.nodes[a]) == g.nodes[a]
            && h.nodes[a].id != fresh && h.nodes[a].name != name by {
            assert(g.ids.issued(g.nodes[a].id) && !g.ids.is_free(g.nodes[a].id));
        }
        assert(node.wf()) by {
            assert(node.pw_nodes[0] == device);
        }
        assert forall|a: int| 0 <= a < h.nodes.len() implies (#[trigger] h.nodes[a]).wf()
            && h.nodes[a].pw_nodes.len() > 0 by {
            if a < n {
                assert(g.nodes[a].wf());
            }
        }
        assert forall|a: int| 0 <= a < h.nodes.len()
            implies h.ids.issued((#[trigger] h.nodes[a]).id)
            && !h.ids.is_free(h.nodes[a].id) by {
            if a < n {
                assert(g.ids.issued(g.nodes[a].id) && !g.ids.is_free(g.nodes[a].id));
            }
        }
        assert forall|k: int| 0 <= k < h.links.len()
            implies h.live((#[trigger] h.links[k]).from_node)
            && h.live(h.links[k].to_node) by {
            let l = g.links[k];
            assert(g.live(l.from_node) && g.live(l.to_node));
            let a = choose|a: int|
                0 <= a < g.nodes.len() && (#[trigger] g.nodes[a]).id == l.from_node;
            assert(h.nodes[a].id == l.from_node);
            let b = choose|b: int|
                0 <= b < g.nodes.len() && (#[trigger] g.nodes[b]).id == l.to_node;
            assert(h.nodes[b].id == l.to_node);
        }
    }
}

/// Adding a port keeps the graph well formed.
pub proof fn lemma_add_port_wf(g: GraphView, name: Seq<char>, node_id: u32, port: PortView)
    requires
        g.wf(),
    ensures
        g.add_port(name, node_id, port).wf(),
{
    if has_key(g.nodes, name) {
        let i = index_of_key(g.nodes, name);
        assert(g.nodes[i].wf());
        lemma_node_add_port(g.nodes[i], node_id, port);
        lemma_update_node_wf(g, i, g.nodes[i].add_port(node_id, port));
    }
}

/// Removing a port keeps the graph well formed.
pub proof fn lemma_remove_port_wf(g: GraphView, name: Seq<char>, node_id: u32, port_id: u32)
    requires
        g.wf(),
    ensures
        g.remove_port(name, node_id, port_id).wf(),
{
    if has_key(g.nodes, name) {
        let i = index_of_key(g.nodes, name);
        assert(g.nodes[i].wf());
        lemma_node_remove_port(g.nodes[i], node_id, port_id);
        lemma_update_node_wf(g, i, g.nodes[i].remove_port(node_id, port_id));
    }
}

/// Adding a link keeps the graph well formed.
pub proof fn lemma_add_link_wf(
    g: GraphView,
    id: u32,
    from_name: Seq<char>,
    to_name: Seq<char>,
    from_port: u32,
    to_port: u32,
)
    requires
        g.wf(),
    ensures
        g.add_link(id, from_name, to_name, from_port, to_port).wf(),
{
    let h = g.add_link(id, from_name, to_name, from_port, to_port);
    match g.resolve(id, from_name, to_name, from_port, to_port) {
        Some(link) => {
            lemma_put(g.links, link);
            assert(g.live(link.from_node) && g.live(link.to_node));
            assert forall|k: int| 0 <= k < h.links.len()
                implies h.live((#[trigger] h.links[k]).from_node)
                && h.live(h.links[k].to_node) by {
                if h.links[k] != link {
                    assert(h.links[k] == g.links[k]);
                }
            }
        },
        None => {},
    }
}

/// Removing a link keeps the graph well formed.
pub proof fn lemma_remove_link_wf(g: GraphView, id: u32)
    requires
        g.wf(),
    ensures
        g.remove_link(id).wf(),
{
    let h = g.remove_link(id);
    lemma_without(g.links, id);
    if has_key(g.links, id) {
        let at = index_of_key(g.links, id);
        assert forall|k: int| 0 <= k < h.links.len()
            implies h.live((#[trigger] h.links[k]).from_node)
            && h.live(h.links[k].to_node) by {
            let k1 = if k < at { k } else { k + 1 };
            assert(h.links[k] == g.links[k1]);
        }
    }
}

/// Removing a device node keeps the graph well formed: the links that
/// touched a logical node go with it.
pub proof fn lemma_remove_node_wf(g: GraphView, name: Seq<char>, id: u32)
    requires
        g.wf(),
    ensures
        g.remove_node(name, id).wf(),
{
    let h = g.remove_node(name, id);
    if has_key(g.nodes, name) {
        let i = index_of_key(g.nodes, name);
        assert(g.nodes[i].wf());
        let node = g.nodes[i].remove_pw_node(id);
        lemma_node_remove_pw_node(g.nodes[i], id);
        if node.pw_nodes.len() == 0 {
            let gone = node.id;
            assert(g.ids.issued(g.nodes[i].id) && !g.ids.is_free(g.nodes[i].id));
            lemma_free(g.ids, gone);
            lemma_links_clear_of(g.links, gone);
            assert forall|a: int| 0 <= a < h.nodes.len() implies #[trigger] h.nodes[a]
                == g.nodes[if a < i { a } else { a + 1 }] by {}
            assert(unique_keys(h.nodes)) by {
                assert forall|a: int, b: int|
                    0 <= a < h.nodes.len() && 0 <= b < h.nodes.len() && a != b implies (
                #[trigger] h.nodes[a]).key() != (#[trigger] h.nodes[b]).key() by {
                    let a1 = if a < i { a } else { a + 1 };
                    let b1 = if b < i { b } else { b + 1 };
                    assert(g.nodes[a1].key() != g.nodes[b1].key());
                }
            }
            assert forall|a: int| 0 <= a < h.nodes.len() implies (#[trigger] h.nodes[a]).wf()
                && h.nodes[a].pw_nodes.len() > 0 && h.nodes[a].id != gone && h.ids.issued(
                h.nodes[a].id,
            ) && !h.ids.is_free(h.nodes[a].id) by {
                let a1 = if a < i { a } else { a + 1 };
                assert(g.nodes[a1].wf());
                assert(g.nodes[a1].id != g.nodes[i].id);
                assert(g.ids.issued(g.nodes[a1].id) && !g.ids.is_free(g.nodes[a1].id));
            }
            assert forall|a: int, b: int|
                0 <= a < h.nodes.len() && 0 <= b < h.nodes.len() && a != b implies (
            #[trigger] h.nodes[a]).id != (#[trigger] h.nodes[b]).id by {
                let a1 = if a < i { a } else { a + 1 };
                let b1 = if b < i { b } else { b + 1 };
                assert(g.nodes[a1].id != g.nodes[b1].id);
            }
            assert forall|k: int| 0 <= k < h.links.len()
                implies h.live((#[trigger] h.links[k]).from_node)
                && h.live(h.links[k].to_node) by {
                let l = h.links[k];
                assert(g.links.contains(l) && !touches(l, gone));
                let k0 = g.links.index_of(l);
                assert(g.live(g.links[k0].from_node) && g.live(g.links[k0].to_node));
                let a = choose|a: int|
                    0 <= a < g.nodes.len() && (#[trigger] g.nodes[a]).id == l.from_node;
                assert(h.nodes[if a < i { a } else { a - 1 }].id == l.from_node);
                let b = choose|b: int|
                    0 <= b < g.nodes.len() && (#[trigger] g.nodes[b]).id == l.to_node;
                assert(h.nodes[if b < i { b } else { b - 1 }].id == l.to_node);
            }
        } else {
            lemma_update_node_wf(g, i, node);
        }
    }
}

/// When a logical node goes, every link that starts or ends at it goes too,
/// and the other links stay.
pub proof fn lemma_no_link_outlives_its_node(g: GraphView, name: Seq<char>, id: u32)
    requires
        g.wf(),
        has_key(g.nodes, name),
        get(g.nodes, name)->Some_0.remove_pw_node(id).pw_nodes.len() == 0,
    ensures
        ({
            let gone = get(g.nodes, name)->Some_0.id;
            let h = g.remove_node(name, id);
            &&& !h.live(gone)
            &&& forall|k: int| 0 <= k < h.links.len() ==> !touches(#[trigger] h.links[k], gone)
            &&& forall|k: int|
                0 <= k < g.links.len() && !touches(#[trigger] g.links[k], gone)
                    ==> h.links.contains(g.links[k])
        }),
{
    let i = index_of_key(g.nodes, name);
    let gone = g.nodes[i].id;
    let h = g.remove_node(name, id);
    lemma_links_clear_of(g.links, gone);
    if h.live(gone) {
        let a = h.index_of_id(gone);
        let a1 = if a < i {
            a
        } else {
            a + 1
        };
        assert(h.nodes[a] == g.nodes[a1]);
        assert(g.nodes[a1].id != g.nodes[i].id);
    }
}

/// Applying the same change of a link's state twice is the same as applying
/// it once: the graph is as it was, with no link more.
pub proof fn lemma_state_change_is_idempotent(g: GraphView, id: u32, active: bool)
    ensures
        g.apply(PipewireMessageView::LinkStateChanged { id, active }) == g,
        g.apply(PipewireMessageView::LinkStateChanged { id, active }).apply(
            PipewireMessageView::LinkStateChanged { id, active },
        ) == g.apply(PipewireMessageView::LinkStateChanged { id, active }),
{
}

/// Two device nodes that come under one new name make one logical node.
/// When the first goes the logical node stays, with the second alone. When
/// the second goes too the logical node goes, the logical nodes are those
/// that were there before, and the identifier is free and is the next to be
/// issued.
pub proof fn lemma_one_name_one_node(
    g: GraphView,
    name: Seq<char>,
    first: PwNodeView,
    second: PwNodeView,
)
    requires
        g.wf(),
        !has_key(g.nodes, name),
        g.ids.can_allocate(),
        first.id != second.id,
        first.ports == Map::<u32, PortView>::empty(),
        second.ports == Map::<u32, PortView>::empty(),
    ensures
        ({
            let id = g.ids.next();
            let both = g.add_node(name, first.id, first.description, first.media_type).add_node(
                name,
                second.id,
                second.description,
                second.media_type,
            );
            let one = both.remove_node(name, first.id);
            let none = one.remove_node(name, second.id);
            &&& both.nodes.len() == g.nodes.len() + 1
            &&& get(both.nodes, name) == Some(
                NodeView { id, name, pw_nodes: seq![first, second], position: None },
            )
            &&& one.nodes.len() == g.nodes.len() + 1
            &&& get(one.nodes, name) == Some(
                NodeView { id, name, pw_nodes: seq![second], position: None },
            )
            &&& !has_key(none.nodes, name)
            &&& none.nodes == g.nodes
            &&& !none.live(id)
            &&& none.ids.is_free(id)
            &&& none.ids.next() == id
        }),
{
    let id = g.ids.next();
    let n = g.nodes.len() as int;
    let g1 = g.add_node(name, first.id, first.description, first.media_type);
    lemma_add_node_wf(g, name, first.id, first.description, first.media_type);
    let node1 = NodeView { id, name, pw_nodes: seq![first], position: None };
    assert(g1.nodes[n] == node1);
    lemma_found(g1.nodes, name, n);
    let both = g1.add_node(name, second.id, second.description, second.media_type);
    lemma_add_node_wf(g1, name, second.id, second.description, second.media_type);
    assert(!has_key(node1.pw_nodes, second.id)) by {
        if has_key(node1.pw_nodes, second.id) {
            let i = index_of_key(node1.pw_nodes, second.id);
            assert(node1.pw_nodes[i] == first);
        }
    }
    let node2 = NodeView { id, name, pw_nodes: seq![first, second], position: None };
    assert(put(node1.pw_nodes, second) =~= seq![first, second]);
    assert(both.nodes[n] == node2);
    lemma_found(both.nodes, name, n);
    let one = both.remove_node(name, first.id);
    lemma_remove_node_wf(both, name, first.id);
    assert(node2.wf());
    lemma_found(node2.pw_nodes, first.id, 0);
    assert(without(node2.pw_nodes, first.id) =~= seq![second]);
    let node3 = NodeView { id, name, pw_nodes: seq![second], position: None };
    assert(one.nodes[n] == node3);
    lemma_found(one.nodes, name, n);
    let none = one.remove_node(name, second.id);
    lemma_remove_node_wf(one, name, second.id);
    assert(node3.wf());
    lemma_found(node3.pw_nodes, second.id, 0);
    assert(without(node3.pw_nodes, second.id) =~= Seq::<PwNodeView>::empty());
    assert(none.nodes =~= g.nodes);
    lemma_allocate(g.ids);
    assert(one.ids == g.ids.allocate());
    lemma_free(one.ids, id);
    assert(!none.live(id)) by {
        if none.live(id) {
            let i = none.index_of_id(id);
            assert(g.ids.issued(g.nodes[i].id) && !g.ids.is_free(g.nodes[i].id));
        }
    }
}

/// A link that the user makes on the display comes back as the link that
/// was asked for. The user joins a port of one logical node to a port of
/// another, and the request asks the engine for a link between the two ports
/// that lingers. When the engine then tells of a new link between these
/// ports, and the tracker knows the nodes it leaves and enters by the names
/// of the two logical nodes, the graph holds an active link between the same
/// two ports and the same two logical nodes.
pub proof fn lemma_link_round_trip(
    g: GraphView,
    objects: Map<u32, GlobalObjectView>,
    asked: LinkUpdate,
    told: LinkInfo,
    from_name: Seq<char>,
    to_name: Seq<char>,
)
    requires
        g.wf(),
        asked matches LinkUpdate::Created { from_port, to_port, from_node, to_node }
            && told.output_port_id == from_port && told.input_port_id == to_port && g.id_of(
            from_name,
        ) == Some(Id(from_node as usize)) && g.id_of(to_name) == Some(Id(to_node as usize)),
        !is_link(objects, told.id),
        node_name_in(objects, told.output_node_id) == Ok::<Seq<char>, HandleError>(from_name),
        node_name_in(objects, told.input_node_id) == Ok::<Seq<char>, HandleError>(to_name),
    ensures
        asked matches LinkUpdate::Created { from_port, to_port, from_node, to_node } && {
            &&& request_for(objects, asked.message()) == Some(
                Request::CreateLink { from_node, from_port, to_node, to_port, linger: true },
            )
            &&& link_outcome(objects, told) matches Ok(Some(message)) && g.apply(message).wf()
                && get(g.apply(message).links, told.id) == Some(
                Link {
                    id: told.id,
                    from_node: Id(from_node as usize),
                    to_node: Id(to_node as usize),
                    from_port,
                    to_port,
                    active: true,
                },
            )
        },
{
    let link = g.resolve(
        told.id,
        from_name,
        to_name,
        told.output_port_id,
        told.input_port_id,
    )->Some_0;
    lemma_put(g.links, link);
    lemma_add_link_wf(g, told.id, from_name, to_name, told.output_port_id, told.input_port_id);
}

/// A change that the user has made to the links on the display, which the
/// engine is to be told of.
#[derive(Debug, Clone, Copy, PartialEq, Eq, Structural)]
pub enum LinkUpdate {
    Created { from_port: u32, to_port: u32, from_node: u32, to_node: u32 },
    Removed(u32),
}

impl LinkUpdate {
    /// The request that tells the engine of the change.
    pub open spec fn message(self) -> UiMessage {
        match self {
            LinkUpdate::Created { from_port, to_port, from_node, to_node } => UiMessage::AddLink {
                from_port,
                to_port,
                from_node,
                to_node,
            },
            LinkUpdate::Removed(id) => UiMessage::RemoveLink(id),
        }
    }

    /// What the user did in one frame: `destroyed` is the link that was
    /// pulled off, `created` the port and node that a new link leaves and the
    /// port and node that it enters. A link pulled off is told before one
    /// made. Identifiers are cut to 32 bits.
    pub fn from_intents(
        destroyed: Option<usize>,
        created: Option<(usize, usize, usize, usize)>,
    ) -> (r: Option<LinkUpdate>)
        ensures
            r == match destroyed {
                Some(link) => Some(LinkUpdate::Removed(link as u32)),
                None => match created {
                    Some((from_port, from_node, to_port, to_node)) => Some(
                        LinkUpdate::Created {
                            from_port: from_port as u32,
                            to_port: to_port as u32,
                            from_node: from_node as u32,
                            to_node: to_node as u32,
                        },
                    ),
                    None => None,
                },
            },
    {
        match destroyed {
            Some(link) => Some(LinkUpdate::Removed(#[verifier::truncate] (link as u32))),
            None => match created {
                Some((from_port, from_node, to_port, to_node)) => Some(
                    LinkUpdate::Created {
                        from_port: #[verifier::truncate] (from_port as u32),
                        to_port: #[verifier::truncate] (to_port as u32),
                        from_node: #[verifier::truncate] (from_node as u32),
                        to_node: #[verifier::truncate] (to_node as u32),
                    },
                ),
                None => None,
            },
        }
    }

    /// The request that tells the engine of the change.
    pub fn into_message(self) -> (r: UiMessage)
        ensures
            r == self.message(),
    {
        match self {
            LinkUpdate::Created { from_port, to_port, from_node, to_node } => UiMessage::AddLink {
                from_port,
                to_port,
                from_node,
                to_node,
            },
            LinkUpdate::Removed(id) => UiMessage::RemoveLink(id),
        }
    }
}

/// The graph model of the display.
pub struct Graph {
    node_id_allocator: IdAllocator,
    nodes: Vec<Node>,
    links: Vec<Link>,
}

impl View for Graph {
    type V = GraphView;

    closed spec fn view(&self) -> GraphView {
        GraphView { nodes: views(self.nodes@), links: self.links@, ids: self.node_id_allocator@ }
    }
}

impl Graph {
    pub fn new() -> (g: Self)
        ensures
            g@ == GraphView::empty(),
            g@.wf(),
    {
        let g = Self {
            node_id_allocator: IdAllocator::new(),
            nodes: Vec::new(),
            links: Vec::new(),
        };
        assert(g@.nodes =~= Seq::empty());
        g
    }

    /// The logical nodes, in the order in which their names first came.
    pub fn nodes(&self) -> (r: &Vec<Node>)
        ensures
            views(r@) == self@.nodes,
    {
        &self.nodes
    }

    /// The links, in the order in which their identifiers first came.
    pub fn links(&self) -> (r: &Vec<Link>)
        ensures
            r@ == self@.links,
    {
        &self.links
    }

    /// Whether [`Graph::add_node`] may be called with a name that is new.
    pub fn has_spare_id(&self) -> (r: bool)
        ensures
            r == self@.ids.can_allocate(),
    {
        self.node_id_allocator.can_allocate()
    }

    fn node_index(&self, name: &str) -> (r: Option<usize>)
        ensures
            match r {
                Some(i) => i < self@.nodes.len() && self@.nodes[i as int].name == name@,
                None => !has_key(self@.nodes, name@),
            },
    {
        let mut i: usize = 0;
        while i < self.nodes.len()
            invariant
                i <= self.nodes.len(),
                forall|j: int| 0 <= j < i ==> (#[trigger] self@.nodes[j]).name != name@,
            decreases self.nodes.len() - i,
        {
            if same_text(self.nodes[i].name(), name) {
                return Some(i);
            }
            i += 1;
        }
        None
    }

    pub(crate) fn node_index_of_id(&self, id: Id) -> (r: Option<usize>)
        ensures
            match r {
                Some(i) => i < self@.nodes.len() && self@.nodes[i as int].id == id,
                None => !self@.live(id),
            },
    {
        let mut i: usize = 0;
        while i < self.nodes.len()
            invariant
                i <= self.nodes.len(),
                forall|j: int| 0 <= j < i ==> (#[trigger] self@.nodes[j]).id != id,
            decreases self.nodes.len() - i,
        {
            if self.nodes[i].id().0 == id.0 {
                return Some(i);
            }
            i += 1;
        }
        None
    }

    fn link_index(&self, id: u32) -> (r: Option<usize>)
        ensures
            match r {
                Some(i) => i < self@.links.len() && self@.links[i as int].id == id,
                None => !has_key(self@.links, id),
            },
    {
        let mut i: usize = 0;
        while i < self.links.len()
            invariant
                i <= self.links.len(),
                forall|j: int| 0 <= j < i ==> (#[trigger] self@.links[j]).id != id,
            decreases self.links.len() - i,
        {
            if self.links[i].id == id {
                return Some(i);
            }
            i += 1;
        }
        None
    }

    /// The logical node that has the identifier `id`.
    pub fn node(&self, id: Id) -> (r: Option<&Node>)
        requires
            self@.wf(),
        ensures
            match r {
                Some(node) => self@.live(id) && node@ == self@.nodes[self@.index_of_id(id)],
                None => !self@.live(id),
            },
    {
        match self.node_index_of_id(id) {
            Some(i) => {
                proof {
                    lemma_index_of_id(self@, i as int);
                }
                assert(self@.nodes[i as int] == self.nodes[i as int]@);
                Some(&self.nodes[i])
            },
            None => None,
        }
    }

    /// A device node came under `name`: it joins the logical node of that
    /// name, which is made with a fresh identifier if there is none yet. A
    /// device node of the same identifier under that name gives way to it.
    pub fn add_node(
        &mut self,
        name: String,
        id: u32,
        description: Option<String>,
        media_type: Option<MediaType>,
    )
        requires
            old(self)@.wf(),
            old(self)@.can_add_node(name@),
        ensures
            final(self)@ == old(self)@.add_node(name@, id, text_of(description), media_type),
            final(self)@.wf(),
    {
        proof {
            lemma_add_node_wf(self@, name@, id, text_of(description), media_type);
        }
        match self.node_index(name.as_str()) {
            Some(i) => {
                proof {
                    lemma_found(self@.nodes, name@, i as int);
                    assert(self@.nodes[i as int].wf());
                }
                self.nodes[i].add_pw_node(id, description, media_type);
                assert(self@.nodes =~= old(self)@.add_node(
                    name@,
                    id,
                    text_of(description),
                    media_type,
                ).nodes);
            },
            None => {
                let fresh = self.node_id_allocator.allocate();
                let mut node = Node::new(fresh, name);
                node.add_pw_node(id, description, media_type);
                proof {
                    let device = PwNodeView {
                        id,
                        description: text_of(description),
                        media_type,
                        ports: Map::empty(),
                    };
                    assert(node@.pw_nodes =~= seq![device]);
                }
                self.nodes.push(node);
                assert(self@.nodes =~= old(self)@.add_node(
                    name@,
                    id,
                    text_of(description),
                    media_type,
                ).nodes);
            },
        }
    }

    fn drop_links_of(&mut self, id: Id)
        ensures
            final(self)@ == old(self)@.with_links(links_clear_of(old(self)@.links, id)),
    {
        let mut kept: Vec<Link> = Vec::new();
        let mut i: usize = 0;
        while i < self.links.len()
            invariant
                i <= self.links.len(),
                kept@ == links_clear_of(self.links@.take(i as int), id),
            decreases self.links.len() - i,
        {
            let link = self.links[i];
            assert(self.links@.take(i + 1).drop_last() =~= self.links@.take(i as int));
            if !(link.from_node.0 == id.0 || link.to_node.0 == id.0) {
                kept.push(link);
            }
            i += 1;
        }
        assert(self.links@.take(i as int) =~= self.links@);
        self.links = kept;
    }

    /// The device node `id` left the logical node `name`. A logical node
    /// that is left without device nodes goes too, with every link that
    /// touches it, and its identifier is handed back. Where no logical node
    /// has that name the graph stays as it is.
    pub fn remove_node(&mut self, name: &str, id: u32) -> (r: Result<(), GraphError>)
        requires
            old(self)@.wf(),
        ensures
            final(self)@ == old(self)@.remove_node(name@, id),
            final(self)@.wf(),
            r == if has_key(old(self)@.nodes, name@) {
                Ok::<(), GraphError>(())
            } else {
                Err(GraphError::UnknownNode)
            },
    {
        proof {
            lemma_remove_node_wf(self@, name@, id);
        }
        match self.node_index(name) {
            Some(i) => {
                proof {
                    lemma_found(self@.nodes, name@, i as int);
                    assert(self@.nodes[i as int].wf());
                }
                let empty = self.nodes[i].remove_pw_node(id);
                if empty {
                    let node = self.nodes.remove(i);
                    let gone = node.id();
                    self.drop_links_of(gone);
                    self.node_id_allocator.free(gone);
                    assert(self@.nodes =~= old(self)@.remove_node(name@, id).nodes);
                } else {
                    assert(self@.nodes =~= old(self)@.remove_node(name@, id).nodes);
                }
                Ok(())
            },
            None => Err(GraphError::UnknownNode),
        }
    }

    /// `port` came to the device node `node_id` of the logical node
    /// `node_name`; a port of the same identifier there gives way to it.
    /// Where there is no such node the graph stays as it is.
    pub fn add_port(&mut self, node_name: String, node_id: u32, port: Port) -> (r: Result<
        (),
        GraphError,
    >)
        requires
            old(self)@.wf(),
        ensures
            final(self)@ == old(self)@.add_port(node_name@, node_id, port@),
            final(self)@.wf(),
            r == old(self)@.find_pw_node(node_name@, node_id),
    {
        proof {
            lemma_add_port_wf(self@, node_name@, node_id, port@);
        }
        match self.node_index(node_name.as_str()) {
            Some(i) => {
                proof {
                    lemma_found(self@.nodes, node_name@, i as int);
                    assert(self@.nodes[i as int].wf());
                }
                let r = self.nodes[i].add_port(node_id, port);
                assert(self@.nodes =~= old(self)@.add_port(node_name@, node_id, port@).nodes);
                r
            },
            None => Err(GraphError::UnknownNode),
        }
    }

    /// The port `port_id` left the device node `node_id` of the logical
    /// node `node_name`. Where there is no such node the graph stays as it
    /// is.
    pub fn remove_port(&mut self, node_name: &str, node_id: u32, port_id: u32) -> (r: Result<
        (),
        GraphError,
    >)
        requires
            old(self)@.wf(),
        ensures
            final(self)@ == old(self)@.remove_port(node_name@, node_id, port_id),
            final(self)@.wf(),
            r == old(self)@.find_pw_node(node_name@, node_id),
    {
        proof {
            lemma_remove_port_wf(self@, node_name@, node_id, port_id);
        }
        match self.node_index(node_name) {
            Some(i) => {
                proof {
                    lemma_found(self@.nodes, node_name@, i as int);
                    assert(self@.nodes[i as int].wf());
                }
                let r = self.nodes[i].remove_port(node_id, port_id);
                assert(self@.nodes =~= old(self)@.remove_port(node_name@, node_id, port_id).nodes);
                r
            },
            None => Err(GraphError::UnknownNode),
        }
    }

    /// The link `id` came, between the logical nodes that have the two names
    /// now; a link of the same identifier gives way to it. Where a name is
    /// not known the link is dropped.
    pub fn add_link(
        &mut self,
        id: u32,
        from_node_name: String,
        to_node_name: String,
        from_port: u32,
        to_port: u32,
    ) -> (r: Result<(), GraphError>)
        requires
            old(self)@.wf(),
        ensures
            final(self)@ == old(self)@.add_link(
                id,
                from_node_name@,
                to_node_name@,
                from_port,
                to_port,
            ),
            final(self)@.wf(),
            r == if old(self)@.resolve(id, from_node_name@, to_node_name@, from_port, to_port)
                is Some {
                Ok::<(), GraphError>(())
            } else {
                Err(GraphError::UnknownNode)
            },
    {
        proof {
            lemma_add_link_wf(self@, id, from_node_name@, to_node_name@, from_port, to_port);
        }
        let from = match self.node_index(from_node_name.as_str()) {
            Some(i) => i,
            None => {
                return Err(GraphError::UnknownNode);
            },
        };
        let to = match self.node_index(to_node_name.as_str()) {
            Some(i) => i,
            None => {
                return Err(GraphError::UnknownNode);
            },
        };
        proof {
            lemma_found(self@.nodes, from_node_name@, from as int);
            lemma_found(self@.nodes, to_node_name@, to as int);
        }
        let link = Link {
            id,
            from_node: self.nodes[from].id(),
            to_node: self.nodes[to].id(),
            from_port,
            to_port,
            active: true,
        };
        match self.link_index(id) {
            Some(k) => {
                proof {
                    lemma_found(self@.links, id, k as int);
                }
                self.links[k] = link;
            },
            None => {
                self.links.push(link);
            },
        }
        assert(self@.links =~= put(old(self)@.links, link));
        Ok(())
    }

    /// The link `id` left; it is returned if there was one.
    pub fn remove_link(&mut self, id: u32) -> (r: Option<Link>)
        requires
            old(self)@.wf(),
        ensures
            final(self)@ == old(self)@.remove_link(id),
            final(self)@.wf(),
            r == get(old(self)@.links, id),
    {
        proof {
            lemma_remove_link_wf(self@, id);
        }
        match self.link_index(id) {
            Some(k) => {
                proof {
                    lemma_found(self@.links, id, k as int);
                }
                let link = self.links.remove(k);
                Some(link)
            },
            None => None,
        }
    }

    /// The link `id`.
    pub fn get_link(&self, id: u32) -> (r: Option<&Link>)
        requires
            self@.wf(),
        ensures
            match r {
                Some(link) => get(self@.links, id) == Some(*link),
                None => get(self@.links, id) is None,
            },
    {
        match self.link_index(id) {
            Some(k) => {
                proof {
                    lemma_found(self@.links, id, k as int);
                }
                Some(&self.links[k])
            },
            None => None,
        }
    }

    /// The display told where it put the logical node `id`, or that it
    /// does not know. Says whether there is such a node.
    pub fn set_position(&mut self, id: Id, position: Option<Position>) -> (found: bool)
        requires
            old(self)@.wf(),
        ensures
            final(self)@ == old(self)@.set_position(id, position),
            final(self)@.wf(),
            found == old(self)@.live(id),
    {
        match self.node_index_of_id(id) {
            Some(i) => {
                proof {
                    lemma_index_of_id(self@, i as int);
                    lemma_update_node_wf(
                        self@,
                        i as int,
                        self@.nodes[i as int].with_position(position),
                    );
                }
                self.nodes[i].set_position(position);
                assert(self@.nodes =~= old(self)@.set_position(id, position).nodes);
                true
            },
            None => false,
        }
    }

    /// Applies a message of the engine's side. A message that does not find
    /// what it speaks of leaves the graph as it is, and the result says what
    /// was missing; a change of a link's state changes nothing here.
    pub fn process_message(&mut self, message: PipewireMessage) -> (r: Result<(), GraphError>)
        requires
            old(self)@.wf(),
            old(self)@.can_apply(message@),
        ensures
            final(self)@ == old(self)@.apply(message@),
            final(self)@.wf(),
            r == old(self)@.outcome(message@),
    {
        match message {
            PipewireMessage::NodeAdded { id, name, description, media_type } => {
                self.add_node(name, id, description, media_type);
                Ok(())
            },
            PipewireMessage::PortAdded { node_name, node_id, id, name, port_type } => {
                let port = Port::new(id, node_id, name, port_type);
                self.add_port(node_name, node_id, port)
            },
            PipewireMessage::LinkAdded { id, from_node_name, to_node_name, from_port, to_port } => {
                self.add_link(id, from_node_name, to_node_name, from_port, to_port)
            },
            PipewireMessage::LinkStateChanged { id: _, active: _ } => Ok(()),
            PipewireMessage::NodeRemoved { name, id } => self.remove_node(name.as_str(), id),
            PipewireMessage::PortRemoved { node_name, node_id, id } => self.remove_port(
                node_name.as_str(),
                node_id,
                id,
            ),
            PipewireMessage::LinkRemoved { id } => match self.remove_link(id) {
                Some(_) => Ok(()),
                None => Err(GraphError::UnknownLink),
            },
        }
    }
}

} // verus!
