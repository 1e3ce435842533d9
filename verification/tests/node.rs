use pw_viz::pipewire_impl::{MediaType, PortType};
use pw_viz::ui::id::Id;
use pw_viz::ui::node::{Node, Position, PwNode};
use pw_viz::ui::port::Port;
use pw_viz::ui::GraphError;

fn port_ids(node: &Node, device: usize) -> Vec<u32> {
    let mut ids: Vec<u32> = node.pw_nodes()[device].ports().values().map(|p| p.id()).collect();
    ids.sort();
    ids
}

fn ports_of(device: &PwNode) -> Vec<(u32, u32, String)> {
    let mut ports: Vec<(u32, u32, String)> = device
        .ports()
        .iter()
        .map(|(key, port)| (*key, port.id(), port.name().to_string()))
        .collect();
    ports.sort();
    ports
}

#[test]
fn port_holds_what_it_was_made_of() {
    let port = Port::new(20, 10, "capture_FL".to_string(), PortType::Output);
    assert_eq!(port.id(), 20);
    assert_eq!(port.parent_pw_node_id(), 10);
    assert_eq!(port.name(), "capture_FL");
    assert_eq!(port.port_type(), PortType::Output);
}

#[test]
fn new_node_has_no_devices_and_no_position() {
    let node = Node::new(Id(4), "mic".to_string());
    assert_eq!(node.id(), Id(4));
    assert_eq!(node.name(), "mic");
    assert!(node.pw_nodes().is_empty());
    assert_eq!(node.position(), None);
}

#[test]
fn device_node_holds_what_it_was_made_of() {
    let device = PwNode::new(10, Some("USB".to_string()), Some(MediaType::Midi));
    assert_eq!(device.id(), 10);
    assert_eq!(device.description(), &Some("USB".to_string()));
    assert_eq!(device.media_type(), Some(MediaType::Midi));
    assert!(device.ports().is_empty());
}

#[test]
fn device_node_keeps_one_port_per_identifier() {
    let mut device = PwNode::new(10, None, None);
    device.add_port(Port::new(20, 10, "a".to_string(), PortType::Input));
    device.add_port(Port::new(21, 10, "b".to_string(), PortType::Input));
    device.add_port(Port::new(20, 10, "c".to_string(), PortType::Output));
    assert_eq!(ports_of(&device), vec![(20, 20, "c".to_string()), (21, 21, "b".to_string())]);
    assert_eq!(device.ports()[&20].port_type(), PortType::Output);
    device.remove_port(22);
    assert_eq!(device.ports().len(), 2);
    device.remove_port(20);
    assert_eq!(ports_of(&device), vec![(21, 21, "b".to_string())]);
}

#[test]
fn node_says_when_its_last_device_is_gone() {
    let mut node = Node::new(Id(1), "usb".to_string());
    node.add_pw_node(10, None, None);
    node.add_pw_node(11, None, None);
    assert!(!node.remove_pw_node(12));
    assert!(!node.remove_pw_node(10));
    assert!(node.remove_pw_node(11));
    assert!(node.pw_nodes().is_empty());
    assert!(node.remove_pw_node(11));
}

#[test]
fn node_puts_a_port_on_the_device_named() {
    let mut node = Node::new(Id(1), "usb".to_string());
    node.add_pw_node(10, None, None);
    node.add_pw_node(11, None, None);
    assert_eq!(node.add_port(11, Port::new(20, 11, "a".to_string(), PortType::Input)), Ok(()));
    assert_eq!(port_ids(&node, 0), Vec::<u32>::new());
    assert_eq!(port_ids(&node, 1), vec![20]);
    assert_eq!(
        node.add_port(12, Port::new(21, 12, "b".to_string(), PortType::Input)),
        Err(GraphError::UnknownPwNode)
    );
    assert_eq!(node.remove_port(12, 20), Err(GraphError::UnknownPwNode));
    assert_eq!(node.remove_port(10, 20), Ok(()));
    assert_eq!(port_ids(&node, 1), vec![20]);
    assert_eq!(node.remove_port(11, 20), Ok(()));
    assert_eq!(port_ids(&node, 1), Vec::<u32>::new());
}

#[test]
fn node_remembers_its_position() {
    let mut node = Node::new(Id(1), "usb".to_string());
    node.set_position(Some(Position { x: 3, y: 4 }));
    assert_eq!(node.position(), Some(Position { x: 3, y: 4 }));
    node.set_position(None);
    assert_eq!(node.position(), None);
}
