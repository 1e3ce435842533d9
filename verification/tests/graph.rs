use pw_viz::pipewire_impl::properties::Properties;
use pw_viz::pipewire_impl::state::State;
use pw_viz::pipewire_impl::{
    handle_link, handle_node, handle_port, handle_remove, handle_ui_message, LinkInfo, MediaType,
    PipewireMessage, PortType, Request,
};
use pw_viz::ui::graph::{Graph, LinkUpdate};
use pw_viz::ui::id::Id;
use pw_viz::ui::link::Link;
use pw_viz::ui::node::Position;
use pw_viz::ui::port::Port;
use pw_viz::ui::GraphError;

fn names(graph: &Graph) -> Vec<(String, Id)> {
    graph.nodes().iter().map(|n| (n.name().to_string(), n.id())).collect()
}

fn device_ids(graph: &Graph, name: &str) -> Vec<u32> {
    let node = graph.nodes().iter().find(|n| n.name() == name).unwrap();
    node.pw_nodes().iter().map(|d| d.id()).collect()
}

fn port_names(graph: &Graph, name: &str, device: u32) -> Vec<(u32, String)> {
    let node = graph.nodes().iter().find(|n| n.name() == name).unwrap();
    let device = node.pw_nodes().iter().find(|d| d.id() == device).unwrap();
    let mut ports: Vec<(u32, String)> =
        device.ports().values().map(|p| (p.id(), p.name().to_string())).collect();
    ports.sort();
    ports
}

fn mic_and_speakers() -> Graph {
    let mut graph = Graph::new();
    graph.add_node("mic".to_string(), 10, None, None);
    graph
        .add_port("mic".to_string(), 10, Port::new(20, 10, "capture_FL".to_string(), PortType::Output))
        .unwrap();
    graph.add_node("speakers".to_string(), 11, None, None);
    graph
        .add_port(
            "speakers".to_string(),
            11,
            Port::new(21, 11, "playback_FL".to_string(), PortType::Input),
        )
        .unwrap();
    graph.add_link(30, "mic".to_string(), "speakers".to_string(), 20, 21).unwrap();
    graph
}

fn link_30() -> Link {
    Link { id: 30, from_node: Id(1), to_node: Id(2), from_port: 20, to_port: 21, active: true }
}

#[test]
fn new_graph_is_empty() {
    let graph = Graph::new();
    assert!(graph.nodes().is_empty());
    assert!(graph.links().is_empty());
    assert!(graph.has_spare_id());
    assert_eq!(graph.top_sort(), Vec::<Id>::new());
}

#[test]
fn mic_to_speakers() {
    let graph = mic_and_speakers();
    assert_eq!(names(&graph), vec![("mic".to_string(), Id(1)), ("speakers".to_string(), Id(2))]);
    assert_eq!(graph.links(), &vec![link_30()]);
    assert_eq!(graph.top_sort(), vec![Id(1), Id(2)]);
    assert_eq!(port_names(&graph, "mic", 10), vec![(20, "capture_FL".to_string())]);
    assert_eq!(port_names(&graph, "speakers", 11), vec![(21, "playback_FL".to_string())]);
    let port = &graph.nodes()[0].pw_nodes()[0].ports()[&20];
    assert_eq!(port.parent_pw_node_id(), 10);
    assert_eq!(port.port_type(), PortType::Output);
    assert_eq!(graph.nodes()[0].pw_nodes()[0].media_type(), None);
    assert_eq!(graph.nodes()[0].pw_nodes()[0].description(), &None);
}

#[test]
fn mic_to_speakers_from_the_engine_to_the_display() {
    let mut state = State::new();
    let mut graph = Graph::new();
    let mut mic = Properties::new();
    mic.push("node.name".to_string(), "mic".to_string());
    let mut capture = Properties::new();
    capture.push("port.name".to_string(), "capture_FL".to_string());
    capture.push("node.id".to_string(), "10".to_string());
    capture.push("port.direction".to_string(), "out".to_string());
    let mut speakers = Properties::new();
    speakers.push("node.name".to_string(), "speakers".to_string());
    let mut playback = Properties::new();
    playback.push("port.name".to_string(), "playback_FL".to_string());
    playback.push("node.id".to_string(), "11".to_string());
    playback.push("port.direction".to_string(), "in".to_string());

    let message = handle_node(&mut state, 10, Some(&mic)).unwrap();
    assert_eq!(graph.process_message(message), Ok(()));
    let message = handle_port(&mut state, 20, Some(&capture)).unwrap();
    assert_eq!(graph.process_message(message), Ok(()));
    let message = handle_node(&mut state, 11, Some(&speakers)).unwrap();
    assert_eq!(graph.process_message(message), Ok(()));
    let message = handle_port(&mut state, 21, Some(&playback)).unwrap();
    assert_eq!(graph.process_message(message), Ok(()));
    let told = LinkInfo {
        id: 30,
        output_node_id: 10,
        output_port_id: 20,
        input_node_id: 11,
        input_port_id: 21,
        state_changed: false,
    };
    let message = handle_link(&mut state, told).unwrap().unwrap();
    assert_eq!(graph.process_message(message), Ok(()));

    assert_eq!(names(&graph), vec![("mic".to_string(), Id(1)), ("speakers".to_string(), Id(2))]);
    assert_eq!(graph.links(), &vec![link_30()]);
    assert_eq!(graph.top_sort(), vec![Id(1), Id(2)]);
}

#[test]
fn node_removed_before_its_link() {
    let mut state = State::new();
    let mut graph = mic_and_speakers();
    state.add(10, pw_viz::pipewire_impl::state::GlobalObject::Node { name: "mic".to_string() });
    state.add(30, pw_viz::pipewire_impl::state::GlobalObject::Link);

    let gone = handle_remove(&mut state, 10).unwrap();
    assert_eq!(gone, PipewireMessage::NodeRemoved { name: "mic".to_string(), id: 10 });
    assert_eq!(graph.process_message(gone), Ok(()));
    assert_eq!(names(&graph), vec![("speakers".to_string(), Id(2))]);
    assert!(graph.links().is_empty());
    assert_eq!(graph.get_link(30), None);
    assert_eq!(graph.top_sort(), vec![Id(2)]);
    assert_eq!(graph.layout().len(), 1);

    let gone = handle_remove(&mut state, 30).unwrap();
    assert_eq!(gone, PipewireMessage::LinkRemoved { id: 30 });
    assert_eq!(graph.process_message(gone), Err(GraphError::UnknownLink));
    assert_eq!(names(&graph), vec![("speakers".to_string(), Id(2))]);
    assert_eq!(graph.top_sort(), vec![Id(2)]);
}

#[test]
fn removing_a_node_takes_every_link_that_touches_it() {
    let mut graph = Graph::new();
    graph.add_node("a".to_string(), 1, None, None);
    graph.add_node("b".to_string(), 2, None, None);
    graph.add_node("c".to_string(), 3, None, None);
    graph.add_link(10, "a".to_string(), "b".to_string(), 0, 0).unwrap();
    graph.add_link(11, "b".to_string(), "c".to_string(), 0, 0).unwrap();
    graph.add_link(12, "c".to_string(), "a".to_string(), 0, 0).unwrap();
    graph.add_link(13, "b".to_string(), "b".to_string(), 0, 0).unwrap();
    graph.add_link(14, "a".to_string(), "c".to_string(), 0, 0).unwrap();
    assert_eq!(graph.remove_node("b", 2), Ok(()));
    let left: Vec<u32> = graph.links().iter().map(|l| l.id).collect();
    assert_eq!(left, vec![12, 14]);
    assert_eq!(names(&graph), vec![("a".to_string(), Id(1)), ("c".to_string(), Id(3))]);
}

#[test]
fn two_devices_of_one_name_make_one_node() {
    let mut graph = Graph::new();
    graph.add_node("usb".to_string(), 10, Some("front".to_string()), Some(MediaType::Audio));
    graph.add_node("usb".to_string(), 11, Some("back".to_string()), Some(MediaType::Video));
    assert_eq!(names(&graph), vec![("usb".to_string(), Id(1))]);
    assert_eq!(device_ids(&graph, "usb"), vec![10, 11]);
    let devices = graph.nodes()[0].pw_nodes();
    assert_eq!(devices[0].description(), &Some("front".to_string()));
    assert_eq!(devices[0].media_type(), Some(MediaType::Audio));
    assert_eq!(devices[1].description(), &Some("back".to_string()));
    assert_eq!(devices[1].media_type(), Some(MediaType::Video));

    assert_eq!(graph.remove_node("usb", 10), Ok(()));
    assert_eq!(names(&graph), vec![("usb".to_string(), Id(1))]);
    assert_eq!(device_ids(&graph, "usb"), vec![11]);

    assert_eq!(graph.remove_node("usb", 11), Ok(()));
    assert!(graph.nodes().is_empty());

    graph.add_node("other".to_string(), 12, None, None);
    assert_eq!(names(&graph), vec![("other".to_string(), Id(1))]);
}

#[test]
fn freed_identifiers_are_issued_again_last_first() {
    let mut graph = Graph::new();
    graph.add_node("a".to_string(), 1, None, None);
    graph.add_node("b".to_string(), 2, None, None);
    graph.add_node("c".to_string(), 3, None, None);
    graph.remove_node("a", 1).unwrap();
    graph.remove_node("c", 3).unwrap();
    graph.add_node("d".to_string(), 4, None, None);
    graph.add_node("e".to_string(), 5, None, None);
    graph.add_node("f".to_string(), 6, None, None);
    assert_eq!(
        names(&graph),
        vec![
            ("b".to_string(), Id(2)),
            ("d".to_string(), Id(3)),
            ("e".to_string(), Id(1)),
            ("f".to_string(), Id(4)),
        ]
    );
}

#[test]
fn a_device_that_comes_again_takes_the_place_of_the_old() {
    let mut graph = Graph::new();
    graph.add_node("usb".to_string(), 10, Some("old".to_string()), None);
    graph
        .add_port("usb".to_string(), 10, Port::new(20, 10, "p".to_string(), PortType::Input))
        .unwrap();
    graph.add_node("usb".to_string(), 11, None, None);
    graph.add_node("usb".to_string(), 10, Some("new".to_string()), Some(MediaType::Midi));
    assert_eq!(device_ids(&graph, "usb"), vec![10, 11]);
    assert_eq!(graph.nodes()[0].pw_nodes()[0].description(), &Some("new".to_string()));
    assert_eq!(port_names(&graph, "usb", 10), Vec::<(u32, String)>::new());
}

#[test]
fn removing_an_unknown_device_changes_nothing() {
    let mut graph = mic_and_speakers();
    assert_eq!(graph.remove_node("mic", 99), Ok(()));
    assert_eq!(graph.remove_node("nobody", 10), Err(GraphError::UnknownNode));
    assert_eq!(names(&graph), vec![("mic".to_string(), Id(1)), ("speakers".to_string(), Id(2))]);
    assert_eq!(device_ids(&graph, "mic"), vec![10]);
    assert_eq!(graph.links(), &vec![link_30()]);
}

#[test]
fn port_needs_its_node() {
    let mut graph = mic_and_speakers();
    let port = Port::new(22, 12, "x".to_string(), PortType::Unknown);
    assert_eq!(graph.add_port("nobody".to_string(), 12, port), Err(GraphError::UnknownNode));
    let port = Port::new(22, 12, "x".to_string(), PortType::Unknown);
    assert_eq!(graph.add_port("mic".to_string(), 12, port), Err(GraphError::UnknownPwNode));
    assert_eq!(names(&graph), vec![("mic".to_string(), Id(1)), ("speakers".to_string(), Id(2))]);
    assert_eq!(port_names(&graph, "mic", 10), vec![(20, "capture_FL".to_string())]);
    assert_eq!(graph.remove_port("nobody", 10, 20), Err(GraphError::UnknownNode));
    assert_eq!(graph.remove_port("mic", 11, 20), Err(GraphError::UnknownPwNode));
    assert_eq!(port_names(&graph, "mic", 10), vec![(20, "capture_FL".to_string())]);
}

#[test]
fn ports_come_and_go() {
    let mut graph = mic_and_speakers();
    graph
        .add_port("mic".to_string(), 10, Port::new(22, 10, "capture_FR".to_string(), PortType::Output))
        .unwrap();
    graph
        .add_port("mic".to_string(), 10, Port::new(20, 10, "renamed".to_string(), PortType::Output))
        .unwrap();
    assert_eq!(
        port_names(&graph, "mic", 10),
        vec![(20, "renamed".to_string()), (22, "capture_FR".to_string())]
    );
    assert_eq!(graph.remove_port("mic", 10, 20), Ok(()));
    assert_eq!(port_names(&graph, "mic", 10), vec![(22, "capture_FR".to_string())]);
    assert_eq!(graph.remove_port("mic", 10, 20), Ok(()));
    assert_eq!(port_names(&graph, "mic", 10), vec![(22, "capture_FR".to_string())]);
}

#[test]
fn link_with_an_unknown_end_is_dropped() {
    let mut graph = mic_and_speakers();
    assert_eq!(
        graph.add_link(31, "mic".to_string(), "nobody".to_string(), 20, 21),
        Err(GraphError::UnknownNode)
    );
    assert_eq!(
        graph.add_link(31, "nobody".to_string(), "mic".to_string(), 20, 21),
        Err(GraphError::UnknownNode)
    );
    assert_eq!(graph.links(), &vec![link_30()]);
    graph.add_node("nobody".to_string(), 12, None, None);
    assert_eq!(graph.links(), &vec![link_30()]);
}

#[test]
fn link_that_comes_again_takes_the_place_of_the_old() {
    let mut graph = mic_and_speakers();
    graph.add_link(31, "speakers".to_string(), "mic".to_string(), 1, 2).unwrap();
    graph.add_link(30, "mic".to_string(), "mic".to_string(), 7, 8).unwrap();
    assert_eq!(
        graph.links(),
        &vec![
            Link { id: 30, from_node: Id(1), to_node: Id(1), from_port: 7, to_port: 8, active: true },
            Link { id: 31, from_node: Id(2), to_node: Id(1), from_port: 1, to_port: 2, active: true },
        ]
    );
    assert!(graph.links()[0].is_self_link());
    assert!(!graph.links()[1].is_self_link());
}

#[test]
fn removing_a_link_returns_it() {
    let mut graph = mic_and_speakers();
    assert_eq!(graph.get_link(30), Some(&link_30()));
    assert_eq!(graph.remove_link(31), None);
    assert_eq!(graph.remove_link(30), Some(link_30()));
    assert_eq!(graph.remove_link(30), None);
    assert!(graph.links().is_empty());
}

#[test]
fn state_change_of_a_link_changes_nothing() {
    let mut graph = mic_and_speakers();
    for _ in 0..2 {
        assert_eq!(
            graph.process_message(PipewireMessage::LinkStateChanged { id: 30, active: true }),
            Ok(())
        );
        assert_eq!(graph.links(), &vec![link_30()]);
    }
    assert_eq!(
        graph.process_message(PipewireMessage::LinkStateChanged { id: 99, active: true }),
        Ok(())
    );
    assert_eq!(graph.links(), &vec![link_30()]);
}

#[test]
fn messages_change_the_graph_as_the_operations_do() {
    let mut graph = Graph::new();
    assert_eq!(
        graph.process_message(PipewireMessage::NodeAdded {
            id: 10,
            name: "mic".to_string(),
            description: Some("USB".to_string()),
            media_type: Some(MediaType::Audio),
        }),
        Ok(())
    );
    assert_eq!(
        graph.process_message(PipewireMessage::PortAdded {
            node_name: "mic".to_string(),
            node_id: 10,
            id: 20,
            name: "capture_FL".to_string(),
            port_type: PortType::Output,
        }),
        Ok(())
    );
    assert_eq!(graph.nodes()[0].pw_nodes()[0].ports()[&20].parent_pw_node_id(), 10);
    assert_eq!(
        graph.process_message(PipewireMessage::PortAdded {
            node_name: "mic".to_string(),
            node_id: 11,
            id: 21,
            name: "x".to_string(),
            port_type: PortType::Input,
        }),
        Err(GraphError::UnknownPwNode)
    );
    assert_eq!(
        graph.process_message(PipewireMessage::LinkAdded {
            id: 30,
            from_node_name: "mic".to_string(),
            to_node_name: "speakers".to_string(),
            from_port: 20,
            to_port: 21,
        }),
        Err(GraphError::UnknownNode)
    );
    assert_eq!(
        graph.process_message(PipewireMessage::LinkAdded {
            id: 30,
            from_node_name: "mic".to_string(),
            to_node_name: "mic".to_string(),
            from_port: 20,
            to_port: 20,
        }),
        Ok(())
    );
    assert_eq!(
        graph.process_message(PipewireMessage::PortRemoved {
            node_name: "speakers".to_string(),
            node_id: 10,
            id: 20,
        }),
        Err(GraphError::UnknownNode)
    );
    assert_eq!(
        graph.process_message(PipewireMessage::PortRemoved {
            node_name: "mic".to_string(),
            node_id: 10,
            id: 20,
        }),
        Ok(())
    );
    assert!(graph.nodes()[0].pw_nodes()[0].ports().is_empty());
    assert_eq!(graph.process_message(PipewireMessage::LinkRemoved { id: 30 }), Ok(()));
    assert_eq!(
        graph.process_message(PipewireMessage::LinkRemoved { id: 30 }),
        Err(GraphError::UnknownLink)
    );
    assert_eq!(
        graph.process_message(PipewireMessage::NodeRemoved { name: "x".to_string(), id: 10 }),
        Err(GraphError::UnknownNode)
    );
    assert_eq!(
        graph.process_message(PipewireMessage::NodeRemoved { name: "mic".to_string(), id: 10 }),
        Ok(())
    );
    assert!(graph.nodes().is_empty());
}

#[test]
fn positions_are_kept_per_node() {
    let mut graph = mic_and_speakers();
    assert_eq!(graph.nodes()[0].position(), None);
    assert!(graph.set_position(Id(2), Some(Position { x: 7, y: 9 })));
    assert!(!graph.set_position(Id(3), Some(Position { x: 1, y: 1 })));
    assert_eq!(graph.nodes()[0].position(), None);
    assert_eq!(graph.nodes()[1].position(), Some(Position { x: 7, y: 9 }));
    assert_eq!(graph.node(Id(2)).unwrap().name(), "speakers");
    assert!(graph.node(Id(3)).is_none());
    assert!(graph.set_position(Id(2), None));
    assert_eq!(graph.nodes()[1].position(), None);
}

#[test]
fn a_link_made_on_the_display_comes_back_as_asked_for() {
    let mut state = State::new();
    let mut graph = Graph::new();
    let mut mic = Properties::new();
    mic.push("node.name".to_string(), "mic".to_string());
    let mut speakers = Properties::new();
    speakers.push("node.name".to_string(), "speakers".to_string());
    let message = handle_node(&mut state, 10, Some(&mic)).unwrap();
    graph.process_message(message).unwrap();
    let message = handle_node(&mut state, 11, Some(&speakers)).unwrap();
    graph.process_message(message).unwrap();

    let update = LinkUpdate::from_intents(None, Some((20, 1, 21, 2))).unwrap();
    assert_eq!(
        update,
        LinkUpdate::Created { from_port: 20, to_port: 21, from_node: 1, to_node: 2 }
    );
    let request = handle_ui_message(update.into_message(), &state).unwrap();
    assert_eq!(
        request,
        Request::CreateLink { from_node: 1, from_port: 20, to_node: 2, to_port: 21, linger: true }
    );

    let told = LinkInfo {
        id: 30,
        output_node_id: 10,
        output_port_id: 20,
        input_node_id: 11,
        input_port_id: 21,
        state_changed: true,
    };
    let message = handle_link(&mut state, told).unwrap().unwrap();
    graph.process_message(message).unwrap();
    assert_eq!(graph.get_link(30), Some(&link_30()));
    let link = graph.get_link(30).unwrap();
    assert!(link.active);
    assert_eq!((link.from_node.as_usize(), link.to_node.as_usize()), (1, 2));
    assert_eq!((link.from_port, link.to_port), (20, 21));
}
