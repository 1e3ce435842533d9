use pw_viz::ui::draw::{Origin, Placement, SEED_DX, SEED_DY};
use pw_viz::ui::graph::{Graph, LinkUpdate};
use pw_viz::ui::id::Id;
use pw_viz::ui::node::Position;
use pw_viz::ui::UiMessage;

fn graph_of_names(count: u32) -> Graph {
    let mut graph = Graph::new();
    for i in 0..count {
        graph.add_node(format!("n{}", i + 1), 100 + i, None, None);
    }
    graph
}

fn link(graph: &mut Graph, id: u32, from: u32, to: u32) {
    graph.add_link(id, format!("n{}", from), format!("n{}", to), 0, 0).unwrap();
}

fn place(order: &[Id], id: usize) -> usize {
    order.iter().position(|x| *x == Id(id)).unwrap()
}

#[test]
fn adjacency_lists_where_the_links_of_each_node_end() {
    let mut graph = graph_of_names(3);
    link(&mut graph, 1, 1, 2);
    link(&mut graph, 2, 3, 1);
    link(&mut graph, 3, 1, 3);
    link(&mut graph, 4, 1, 2);
    assert_eq!(graph.adjacency(), vec![vec![1, 2, 1], vec![], vec![0]]);
}

#[test]
fn adjacency_leaves_out_links_that_end_where_they_start() {
    let mut graph = graph_of_names(2);
    link(&mut graph, 1, 1, 1);
    link(&mut graph, 2, 2, 2);
    link(&mut graph, 3, 2, 1);
    assert_eq!(graph.adjacency(), vec![vec![], vec![0]]);
    assert_eq!(graph.top_sort(), vec![Id(2), Id(1)]);
}

#[test]
fn draw_order_of_a_node_linked_to_itself_alone() {
    let mut graph = graph_of_names(1);
    link(&mut graph, 1, 1, 1);
    assert_eq!(graph.adjacency(), vec![Vec::<usize>::new()]);
    assert_eq!(graph.top_sort(), vec![Id(1)]);
}

#[test]
fn draw_order_puts_sources_before_what_they_feed() {
    let mut graph = graph_of_names(6);
    link(&mut graph, 1, 6, 5);
    link(&mut graph, 2, 5, 4);
    link(&mut graph, 3, 4, 1);
    link(&mut graph, 4, 6, 2);
    link(&mut graph, 5, 2, 1);
    link(&mut graph, 6, 3, 1);
    let order = graph.top_sort();
    assert_eq!(order.len(), 6);
    for l in graph.links() {
        assert!(place(&order, l.from_node.as_usize()) < place(&order, l.to_node.as_usize()));
    }
    assert_eq!(order, vec![Id(6), Id(5), Id(4), Id(3), Id(2), Id(1)]);
}

#[test]
fn draw_order_of_a_cycle_lists_every_node_once() {
    let mut graph = graph_of_names(3);
    link(&mut graph, 1, 1, 2);
    link(&mut graph, 2, 2, 3);
    link(&mut graph, 3, 3, 1);
    assert_eq!(graph.top_sort(), vec![Id(1), Id(2), Id(3)]);
}

#[test]
fn draw_order_goes_by_the_identifiers_that_nodes_have_now() {
    let mut graph = graph_of_names(3);
    graph.remove_node("n1", 100).unwrap();
    graph.add_node("n4".to_string(), 103, None, None);
    link(&mut graph, 1, 4, 2);
    link(&mut graph, 2, 2, 3);
    assert_eq!(graph.top_sort(), vec![Id(1), Id(2), Id(3)]);
}

#[test]
fn layout_seeds_nodes_alternately_above_and_below() {
    let graph = graph_of_names(3);
    assert_eq!((SEED_DX, SEED_DY), (75, 150));
    assert_eq!(
        graph.layout(),
        vec![
            Placement { node: Id(3), origin: Origin::Seeded { dx: 75, dy: -150 } },
            Placement { node: Id(2), origin: Origin::Seeded { dx: 75, dy: 150 } },
            Placement { node: Id(1), origin: Origin::Seeded { dx: 75, dy: -150 } },
        ]
    );
}

#[test]
fn layout_keeps_nodes_where_the_display_put_them() {
    let mut graph = graph_of_names(4);
    let here = Position { x: 0x42c8_0000, y: 0x4348_0000 };
    assert!(graph.set_position(Id(3), Some(here)));
    assert_eq!(
        graph.layout(),
        vec![
            Placement { node: Id(4), origin: Origin::Seeded { dx: 75, dy: -150 } },
            Placement { node: Id(3), origin: Origin::Cached(here) },
            Placement { node: Id(2), origin: Origin::Seeded { dx: 75, dy: 150 } },
            Placement { node: Id(1), origin: Origin::Seeded { dx: 75, dy: -150 } },
        ]
    );
}

#[test]
fn layout_follows_the_draw_order() {
    let mut graph = graph_of_names(3);
    link(&mut graph, 1, 1, 2);
    link(&mut graph, 2, 2, 3);
    let nodes: Vec<Id> = graph.layout().iter().map(|p| p.node).collect();
    assert_eq!(nodes, graph.top_sort());
    assert_eq!(nodes, vec![Id(1), Id(2), Id(3)]);
}

#[test]
fn layout_of_the_empty_graph_is_empty() {
    assert_eq!(Graph::new().layout(), Vec::<Placement>::new());
}

#[test]
fn a_link_pulled_off_is_told_before_one_made() {
    assert_eq!(LinkUpdate::from_intents(None, None), None);
    assert_eq!(LinkUpdate::from_intents(Some(30), None), Some(LinkUpdate::Removed(30)));
    assert_eq!(
        LinkUpdate::from_intents(None, Some((20, 1, 21, 2))),
        Some(LinkUpdate::Created { from_port: 20, to_port: 21, from_node: 1, to_node: 2 })
    );
    assert_eq!(
        LinkUpdate::from_intents(Some(30), Some((20, 1, 21, 2))),
        Some(LinkUpdate::Removed(30))
    );
}

#[test]
fn link_updates_become_requests() {
    assert_eq!(LinkUpdate::Removed(30).into_message(), UiMessage::RemoveLink(30));
    assert_eq!(
        LinkUpdate::Created { from_port: 20, to_port: 21, from_node: 1, to_node: 2 }.into_message(),
        UiMessage::AddLink { from_port: 20, to_port: 21, from_node: 1, to_node: 2 }
    );
}
