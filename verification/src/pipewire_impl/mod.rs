//! The side of the engine: what it announces, and what is asked of it.
use crate::text::{contains, occurs_in, parse_u32, parsed_u32, same_text, text_of};
use crate::ui::UiMessage;
use properties::{lookup, Properties};
use state::{GlobalObject, GlobalObjectView, State};
use vstd::prelude::*;

pub mod properties;
pub mod state;

verus! {

/// What kind of media a node carries.
#[derive(Debug, Copy, Clone, PartialEq, Eq, Structural)]
pub enum MediaType {
    Audio,
    Video,
    Midi,
}

/// The direction of a port.
#[derive(Copy, Clone, Debug, PartialEq, Eq, Structural)]
pub enum PortType {
    Input,
    Output,
    Unknown,
}

/// A change of the engine's graph, as the display is told of it.
#[derive(Debug, Clone, PartialEq, Eq)]
pub enum PipewireMessage {
    NodeAdded { id: u32, name: String, description: Option<String>, media_type: Option<MediaType> },
    PortAdded { node_name: String, node_id: u32, id: u32, name: String, port_type: PortType },
    LinkAdded {
        id: u32,
        from_node_name: String,
        to_node_name: String,
        from_port: u32,
        to_port: u32,
    },
    LinkStateChanged { id: u32, active: bool },
    NodeRemoved { name: String, id: u32 },
    PortRemoved { node_name: String, node_id: u32, id: u32 },
    LinkRemoved { id: u32 },
}

/// A [`PipewireMessage`] with its texts as sequences of characters.
pub enum PipewireMessageView {
    NodeAdded {
        id: u32,
        name: Seq<char>,
        description: Option<Seq<char>>,
        media_type: Option<MediaType>,
    },
    PortAdded { node_name: Seq<char>, node_id: u32, id: u32, name: Seq<char>, port_type: PortType },
    LinkAdded {
        id: u32,
        from_node_name: Seq<char>,
        to_node_name: Seq<char>,
        from_port: u32,
        to_port: u32,
    },
    LinkStateChanged { id: u32, active: bool },
    NodeRemoved { name: Seq<char>, id: u32 },
    PortRemoved { node_name: Seq<char>, node_id: u32, id: u32 },
    LinkRemoved { id: u32 },
}

impl View for PipewireMessage {
    type V = PipewireMessageView;

    open spec fn view(&self) -> PipewireMessageView {
        match *self {
            PipewireMessage::NodeAdded { id, name, description, media_type } => {
                PipewireMessageView::NodeAdded {
                    id,
                    name: name@,
                    description: text_of(description),
                    media_type,
                }
            },
            PipewireMessage::PortAdded { node_name, node_id, id, name, port_type } => {
                PipewireMessageView::PortAdded {
                    node_name: node_name@,
                    node_id,
                    id,
                    name: name@,
                    port_type,
                }
            },
            PipewireMessage::LinkAdded { id, from_node_name, to_node_name, from_port, to_port } => {
                PipewireMessageView::LinkAdded {
                    id,
                    from_node_name: from_node_name@,
                    to_node_name: to_node_name@,
                    from_port,
                    to_port,
                }
            },
            PipewireMessage::LinkStateChanged { id, active } => {
                PipewireMessageView::LinkStateChanged { id, active }
            },
            PipewireMessage::NodeRemoved { name, id } => {
                PipewireMessageView::NodeRemoved { name: name@, id }
            },
            PipewireMessage::PortRemoved { node_name, node_id, id } => {
                PipewireMessageView::PortRemoved { node_name: node_name@, node_id, id }
            },
            PipewireMessage::LinkRemoved { id } => PipewireMessageView::LinkRemoved { id },
        }
    }
}


/// The kinds of object that the engine announces.
#[derive(Debug, Clone, Copy, PartialEq, Eq, Structural)]
pub enum ObjectType {
    Node,
    Link,
    Port,
    Other,
}

/// What the engine tells of a link: its identifier, the node and port it
/// leaves, the node and port it enters, and whether its state has changed
/// since it last told.
#[derive(Debug, Clone, Copy, PartialEq, Eq, Structural)]
pub struct LinkInfo {
    pub id: u32,
    pub output_node_id: u32,
    pub output_port_id: u32,
    pub input_node_id: u32,
    pub input_port_id: u32,
    pub state_changed: bool,
}

/// Why a notification gave no message.
#[derive(Debug, Clone, Copy, PartialEq, Eq, Structural)]
pub enum HandleError {
    /// The object came without properties.
    MissingProperties,
    /// A port came without the identifier of its node.
    MissingNodeId,
    /// The identifier of a port's node is not a number of 32 bits.
    InvalidNodeId,
    /// Nothing is registered under the identifier of the node.
    UnknownObject(u32),
    /// What is registered under the identifier of the node is no node.
    NotANode(u32),
}

/// What to do about an object that the engine has announced.
#[derive(Debug, Clone, PartialEq, Eq)]
pub enum GlobalAction {
    /// Pass the message on to the display.
    Send(PipewireMessage),
    /// Ask the engine to tell of this link, now and whenever it changes.
    Bind,
    /// Nothing: the object is of no concern.
    Ignore,
}

/// What to ask of the engine.
#[derive(Debug, Clone, Copy, PartialEq, Eq, Structural)]
pub enum Request {
    /// Make a link. With `linger` the link outlives the one who asked.
    CreateLink { from_node: u32, from_port: u32, to_node: u32, to_port: u32, linger: bool },
    /// Destroy the object with this identifier.
    DestroyGlobal(u32),
    /// Stop listening.
    Quit,
}

/// The name under which a node is shown: its nick, else its description,
/// else its name, else nothing.
pub open spec fn node_name_of(props: Seq<(Seq<char>, Seq<char>)>) -> Seq<char> {
    match lookup(props, "node.nick"@) {
        Some(nick) => nick,
        None => match lookup(props, "node.description"@) {
            Some(description) => description,
            None => match lookup(props, "node.name"@) {
                Some(name) => name,
                None => Seq::empty(),
            },
        },
    }
}

/// The kind of media that a media class names: the first of audio, video
/// and midi whose word stands in it.
pub open spec fn media_type_of(class: Seq<char>) -> Option<MediaType> {
    if occurs_in(class, "Audio"@) {
        Some(MediaType::Audio)
    } else if occurs_in(class, "Video"@) {
        Some(MediaType::Video)
    } else if occurs_in(class, "Midi"@) {
        Some(MediaType::Midi)
    } else {
        None
    }
}

/// The direction that the property of a port names.
pub open spec fn port_type_of(direction: Option<Seq<char>>) -> PortType {
    match direction {
        Some(d) => if d == "in"@ {
            PortType::Input
        } else if d == "out"@ {
            PortType::Output
        } else {
            PortType::Unknown
        },
        None => PortType::Unknown,
    }
}

/// The message that tells of the node `id` with the properties `props`.
pub open spec fn node_added(id: u32, props: Seq<(Seq<char>, Seq<char>)>) -> PipewireMessageView {
    PipewireMessageView::NodeAdded {
        id,
        name: node_name_of(props),
        description: lookup(props, "node.description"@),
        media_type: match lookup(props, "media.class"@) {
            Some(class) => media_type_of(class),
            None => None,
        },
    }
}

/// The name of the node registered under `id`.
pub open spec fn node_name_in(objects: Map<u32, GlobalObjectView>, id: u32) -> Result<
    Seq<char>,
    HandleError,
> {
    if !objects.contains_key(id) {
        Err(HandleError::UnknownObject(id))
    } else {
        match objects[id] {
            GlobalObjectView::Node { name } => Ok(name),
            _ => Err(HandleError::NotANode(id)),
        }
    }
}

/// The identifier of the node that the properties of a port name.
pub open spec fn port_node_id(props: Seq<(Seq<char>, Seq<char>)>) -> Result<u32, HandleError> {
    match lookup(props, "node.id"@) {
        None => Err(HandleError::MissingNodeId),
        Some(text) => match parsed_u32(text) {
            None => Err(HandleError::InvalidNodeId),
            Some(node_id) => Ok(node_id),
        },
    }
}

/// What the announcement of the port `id` gives: the message that tells of
/// it, or the first thing that is missing.
pub open spec fn port_outcome(
    objects: Map<u32, GlobalObjectView>,
    id: u32,
    props: Option<Seq<(Seq<char>, Seq<char>)>>,
) -> Result<PipewireMessageView, HandleError> {
    match props {
        None => Err(HandleError::MissingProperties),
        Some(props) => match port_node_id(props) {
            Err(e) => Err(e),
            Ok(node_id) => match node_name_in(objects, node_id) {
                Err(e) => Err(e),
                Ok(node_name) => Ok(
                    PipewireMessageView::PortAdded {
                        node_name,
                        node_id,
                        id,
                        name: match lookup(props, "port.name"@) {
                            Some(name) => name,
                            None => Seq::empty(),
                        },
                        port_type: port_type_of(lookup(props, "port.direction"@)),
                    },
                ),
            },
        },
    }
}

/// The tracker after the announcement of the port `id`.
pub open spec fn after_port(
    objects: Map<u32, GlobalObjectView>,
    id: u32,
    props: Option<Seq<(Seq<char>, Seq<char>)>>,
) -> Map<u32, GlobalObjectView> {
    match port_outcome(objects, id, props) {
        Ok(PipewireMessageView::PortAdded { node_name, node_id, .. }) => objects.insert(
            id,
            GlobalObjectView::Port { node_name, node_id, id },
        ),
        _ => objects,
    }
}

/// Whether a link is registered under `id`.
pub open spec fn is_link(objects: Map<u32, GlobalObjectView>, id: u32) -> bool {
    objects.contains_key(id) && objects[id] is Link
}

/// What the engine's telling of a link gives: nothing, a message, or the
/// first thing that is missing. A link that is not registered is added; one
/// that is registered has at most changed its state.
pub open spec fn link_outcome(objects: Map<u32, GlobalObjectView>, info: LinkInfo) -> Result<
    Option<PipewireMessageView>,
    HandleError,
> {
    match node_name_in(objects, info.output_node_id) {
        Err(e) => Err(e),
        Ok(from_node_name) => match node_name_in(objects, info.input_node_id) {
            Err(e) => Err(e),
            Ok(to_node_name) => if is_link(objects, info.id) {
                if info.state_changed {
                    Ok(Some(PipewireMessageView::LinkStateChanged { id: info.id, active: true }))
                } else {
                    Ok(None)
                }
            } else {
                Ok(
                    Some(
                        PipewireMessageView::LinkAdded {
                            id: info.id,
                            from_node_name,
                            to_node_name,
                            from_port: info.output_port_id,
                            to_port: info.input_port_id,
                        },
                    ),
                )
            },
        },
    }
}

/// The tracker after the engine told of a link.
pub open spec fn after_link(objects: Map<u32, GlobalObjectView>, info: LinkInfo) -> Map<
    u32,
    GlobalObjectView,
> {
    if link_outcome(objects, info) is Ok && !is_link(objects, info.id) {
        objects.insert(info.id, GlobalObjectView::Link)
    } else {
        objects
    }
}

/// Once the engine has told of a link, telling of it again registers nothing
/// and never gives a second message that the link was added: at most that
/// its state has changed, as often as that is told.
pub proof fn lemma_link_told_again(
    objects: Map<u32, GlobalObjectView>,
    first: LinkInfo,
    again: LinkInfo,
)
    requires
        link_outcome(objects, first) is Ok,
        again.id == first.id,
    ensures
        is_link(after_link(objects, first), first.id),
        after_link(after_link(objects, first), again) == after_link(objects, first),
        match link_outcome(after_link(objects, first), again) {
            Ok(Some(message)) => again.state_changed && message == (
            PipewireMessageView::LinkStateChanged { id: first.id, active: true }),
            Ok(None) => !again.state_changed,
            Err(_) => true,
        },
{
}

/// The message that tells that the object `id` is gone, if one was
/// registered.
pub open spec fn remove_outcome(objects: Map<u32, GlobalObjectView>, id: u32) -> Option<
    PipewireMessageView,
> {
    if !objects.contains_key(id) {
        None
    } else {
        Some(
            match objects[id] {
                GlobalObjectView::Node { name } => PipewireMessageView::NodeRemoved { name, id },
                GlobalObjectView::Link => PipewireMessageView::LinkRemoved { id },
                GlobalObjectView::Port { node_name, node_id, id } => PipewireMessageView::PortRemoved {
                    node_name,
                    node_id,
                    id,
                },
            },
        )
    }
}

/// What a request of the display asks of the engine. A link is made to
/// linger; only what is registered as a link is destroyed.
pub open spec fn request_for(objects: Map<u32, GlobalObjectView>, message: UiMessage) -> Option<
    Request,
> {
    match message {
        UiMessage::RemoveLink(id) => if is_link(objects, id) {
            Some(Request::DestroyGlobal(id))
        } else {
            None
        },
        UiMessage::AddLink { from_port, to_port, from_node, to_node } => Some(
            Request::CreateLink { from_node, from_port, to_node, to_port, linger: true },
        ),
        UiMessage::Exit => Some(Request::Quit),
    }
}

/// `r` holds the message `expected`, or the same error.
pub open spec fn gives(
    r: Result<PipewireMessage, HandleError>,
    expected: Result<PipewireMessageView, HandleError>,
) -> bool {
    match (r, expected) {
        (Ok(message), Ok(view)) => message@ == view,
        (Err(e), Err(x)) => e == x,
        _ => false,
    }
}

/// `r` holds the message `expected`, or none as `expected` does.
pub open spec fn gives_some(
    r: Option<PipewireMessage>,
    expected: Option<PipewireMessageView>,
) -> bool {
    match (r, expected) {
        (Some(message), Some(view)) => message@ == view,
        (None, None) => true,
        _ => false,
    }
}

fn owned(text: Option<&str>) -> (r: Option<String>)
    ensures
        match text {
            Some(t) => text_of(r) == Some(t@),
            None => r is None,
        },
{
    match text {
        Some(t) => Some(t.to_owned()),
        None => None,
    }
}

fn media_type_for(class: &str) -> (r: Option<MediaType>)
    ensures
        r == media_type_of(class@),
{
    if contains(class, "Audio") {
        Some(MediaType::Audio)
    } else if contains(class, "Video") {
        Some(MediaType::Video)
    } else if contains(class, "Midi") {
        Some(MediaType::Midi)
    } else {
        None
    }
}

fn node_name_for(state: &State, id: u32) -> (r: Result<String, HandleError>)
    ensures
        match r {
            Ok(name) => node_name_in(state@, id) == Ok::<Seq<char>, HandleError>(name@),
            Err(e) => node_name_in(state@, id) == Err::<Seq<char>, HandleError>(e),
        },
{
    match state.get(id) {
        None => Err(HandleError::UnknownObject(id)),
        Some(object) => match object {
            GlobalObject::Node { name } => Ok(name.clone()),
            _ => Err(HandleError::NotANode(id)),
        },
    }
}

/// A node was announced: it is registered under its name, and the message
/// that tells of it is returned. Without properties nothing is registered.
pub fn handle_node(state: &mut State, id: u32, props: Option<&Properties>) -> (r: Result<
    PipewireMessage,
    HandleError,
>)
    ensures
        match props {
            Some(p) => gives(r, Ok(node_added(id, p@))) && final(state)@ == old(state)@.insert(
                id,
                GlobalObjectView::Node { name: node_name_of(p@) },
            ),
            None => r == Err::<PipewireMessage, HandleError>(HandleError::MissingProperties)
                && final(state)@ == old(state)@,
        },
{
    let props = match props {
        Some(p) => p,
        None => {
            return Err(HandleError::MissingProperties);
        },
    };
    let name = match props.get("node.nick") {
        Some(nick) => nick.to_owned(),
        None => match props.get("node.description") {
            Some(description) => description.to_owned(),
            None => match props.get("node.name") {
                Some(name) => name.to_owned(),
                None => String::new(),
            },
        },
    };
    let description = owned(props.get("node.description"));
    let media_type = match props.get("media.class") {
        Some(class) => media_type_for(class),
        None => None,
    };
    state.add(id, GlobalObject::Node { name: name.clone() });
    Ok(PipewireMessage::NodeAdded { id, name, description, media_type })
}

/// A port was announced: it is registered with the name of its node, and
/// the message that tells of it is returned. Where something is missing
/// nothing is registered.
pub fn handle_port(state: &mut State, id: u32, props: Option<&Properties>) -> (r: Result<
    PipewireMessage,
    HandleError,
>)
    ensures
        gives(
            r,
            port_outcome(
                old(state)@,
                id,
                match props {
                    Some(p) => Some(p@),
                    None => None,
                },
            ),
        ),
        final(state)@ == after_port(
            old(state)@,
            id,
            match props {
                Some(p) => Some(p@),
                None => None,
            },
        ),
{
    let props = match props {
        Some(p) => p,
        None => {
            return Err(HandleError::MissingProperties);
        },
    };
    let name = match props.get("port.name") {
        Some(name) => name.to_owned(),
        None => String::new(),
    };
    let node_id = match props.get("node.id") {
        None => {
            return Err(HandleError::MissingNodeId);
        },
        Some(text) => match parse_u32(text) {
            None => {
                return Err(HandleError::InvalidNodeId);
            },
            Some(node_id) => node_id,
        },
    };
    let node_name = match node_name_for(state, node_id) {
        Ok(node_name) => node_name,
        Err(e) => {
            return Err(e);
        },
    };
    let port_type = match props.get("port.direction") {
        Some(direction) => if same_text(direction, "in") {
            PortType::Input
        } else if same_text(direction, "out") {
            PortType::Output
        } else {
            PortType::Unknown
        },
        None => PortType::Unknown,
    };
    state.add(id, GlobalObject::Port { node_name: node_name.clone(), node_id, id });
    Ok(PipewireMessage::PortAdded { node_name, node_id, id, name, port_type })
}

/// The engine told of a link. One that is not registered yet is
/// registered, and the message that tells of it is returned, with the names
/// of the nodes it leaves and enters. Of one that is registered only a
/// change of state is told, as a link that is active. Where a node is
/// missing nothing is registered.
pub fn handle_link(state: &mut State, info: LinkInfo) -> (r: Result<
    Option<PipewireMessage>,
    HandleError,
>)
    ensures
        match (r, link_outcome(old(state)@, info)) {
            (Ok(message), Ok(expected)) => gives_some(message, expected),
            (Err(e), Err(x)) => e == x,
            _ => false,
        },
        final(state)@ == after_link(old(state)@, info),
{
    let from_node_name = match node_name_for(state, info.output_node_id) {
        Ok(name) => name,
        Err(e) => {
            return Err(e);
        },
    };
    let to_node_name = match node_name_for(state, info.input_node_id) {
        Ok(name) => name,
        Err(e) => {
            return Err(e);
        },
    };
    let registered = match state.get(info.id) {
        Some(object) => match object {
            GlobalObject::Link => true,
            _ => false,
        },
        None => false,
    };
    if registered {
        if info.state_changed {
            Ok(Some(PipewireMessage::LinkStateChanged { id: info.id, active: true }))
        } else {
            Ok(None)
        }
    } else {
        state.add(info.id, GlobalObject::Link);
        Ok(
            Some(
                PipewireMessage::LinkAdded {
                    id: info.id,
                    from_node_name,
                    to_node_name,
                    from_port: info.output_port_id,
                    to_port: info.input_port_id,
                },
            ),
        )
    }
}

/// An object was announced: a node or a port is registered and told of, a
/// link is to be bound so that the engine tells of it, anything else is of
/// no concern.
pub fn handle_global(
    state: &mut State,
    kind: ObjectType,
    id: u32,
    props: Option<&Properties>,
) -> (r: Result<GlobalAction, HandleError>)
    ensures
        match kind {
            ObjectType::Node => match props {
                Some(p) => r matches Ok(GlobalAction::Send(m)) && m@ == node_added(id, p@)
                    && final(state)@ == old(state)@.insert(
                    id,
                    GlobalObjectView::Node { name: node_name_of(p@) },
                ),
                None => r matches Err(HandleError::MissingProperties) && final(state)@ == old(
                    state,
                )@,
            },
            ObjectType::Port => {
                let p = match props {
                    Some(p) => Some(p@),
                    None => None,
                };
                &&& final(state)@ == after_port(old(state)@, id, p)
                &&& match port_outcome(old(state)@, id, p) {
                    Ok(view) => r matches Ok(GlobalAction::Send(m)) && m@ == view,
                    Err(e) => r matches Err(x) && x == e,
                }
            },
            ObjectType::Link => r matches Ok(GlobalAction::Bind) && final(state)@ == old(state)@,
            ObjectType::Other => r matches Ok(GlobalAction::Ignore) && final(state)@ == old(
                state,
            )@,
        },
{
    match kind {
        ObjectType::Node => match handle_node(state, id, props) {
            Ok(message) => Ok(GlobalAction::Send(message)),
            Err(e) => Err(e),
        },
        ObjectType::Port => match handle_port(state, id, props) {
            Ok(message) => Ok(GlobalAction::Send(message)),
            Err(e) => Err(e),
        },
        ObjectType::Link => Ok(GlobalAction::Bind),
        ObjectType::Other => Ok(GlobalAction::Ignore),
    }
}

/// An object is gone: it is forgotten, and the message that tells so is
/// returned. Of an identifier that is not registered nothing is told.
pub fn handle_remove(state: &mut State, id: u32) -> (r: Option<PipewireMessage>)
    ensures
        gives_some(r, remove_outcome(old(state)@, id)),
        final(state)@ == old(state)@.remove(id),
{
    match state.remove(id) {
        Some(object) => Some(
            match object {
                GlobalObject::Node { name } => PipewireMessage::NodeRemoved { name, id },
                GlobalObject::Link => PipewireMessage::LinkRemoved { id },
                GlobalObject::Port { node_name, node_id, id } => PipewireMessage::PortRemoved {
                    node_name,
                    node_id,
                    id,
                },
            },
        ),
        None => None,
    }
}

/// The request that makes a link between two ports, and lets it linger.
pub fn add_link(from_port: u32, to_port: u32, from_node: u32, to_node: u32) -> (r: Request)
    ensures
        r == (Request::CreateLink { from_node, from_port, to_node, to_port, linger: true }),
{
    Request::CreateLink { from_node, from_port, to_node, to_port, linger: true }
}

/// The request that destroys the link `link_id`, if a link is registered
/// under that identifier.
pub fn remove_link(link_id: u32, state: &State) -> (r: Option<Request>)
    ensures
        r == if is_link(state@, link_id) {
            Some(Request::DestroyGlobal(link_id))
        } else {
            None
        },
{
    match state.get(link_id) {
        Some(object) => match object {
            GlobalObject::Link => Some(Request::DestroyGlobal(link_id)),
            _ => None,
        },
        None => None,
    }
}

/// What a request of the display asks of the engine, if anything.
pub fn handle_ui_message(message: UiMessage, state: &State) -> (r: Option<Request>)
    ensures
        r == request_for(state@, message),
{
    match message {
        UiMessage::RemoveLink(link_id) => remove_link(link_id, state),
        UiMessage::AddLink { from_port, to_port, from_node, to_node } => Some(
            add_link(from_port, to_port, from_node, to_node),
        ),
        UiMessage::Exit => Some(Request::Quit),
    }
}

} // verus!
