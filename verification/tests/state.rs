use pw_viz::pipewire_impl::state::{GlobalObject, State};

fn node(name: &str) -> GlobalObject {
    GlobalObject::Node { name: name.to_string() }
}

#[test]
fn tracker_starts_empty() {
    let state = State::new();
    assert_eq!(state.get(0), None);
    assert_eq!(state.get(10), None);
}

#[test]
fn tracker_returns_what_was_added() {
    let mut state = State::new();
    state.add(10, node("mic"));
    state.add(30, GlobalObject::Link);
    state.add(20, GlobalObject::Port { node_name: "mic".to_string(), node_id: 10, id: 20 });
    assert_eq!(state.get(10), Some(&node("mic")));
    assert_eq!(state.get(30), Some(&GlobalObject::Link));
    assert_eq!(
        state.get(20),
        Some(&GlobalObject::Port { node_name: "mic".to_string(), node_id: 10, id: 20 })
    );
    assert_eq!(state.get(11), None);
}

#[test]
fn tracker_keeps_what_was_written_last() {
    let mut state = State::new();
    state.add(10, node("mic"));
    state.add(10, GlobalObject::Link);
    assert_eq!(state.get(10), Some(&GlobalObject::Link));
}

#[test]
fn tracker_forgets_what_was_removed() {
    let mut state = State::new();
    state.add(10, node("mic"));
    state.add(11, node("speakers"));
    assert_eq!(state.remove(10), Some(node("mic")));
    assert_eq!(state.get(10), None);
    assert_eq!(state.get(11), Some(&node("speakers")));
}

#[test]
fn tracker_removes_nothing_under_an_unknown_identifier() {
    let mut state = State::new();
    assert_eq!(state.remove(10), None);
    state.add(10, node("mic"));
    assert_eq!(state.remove(11), None);
    assert_eq!(state.get(10), Some(&node("mic")));
}

#[test]
fn tracker_removal_holds_through_any_run_of_changes() {
    let mut state = State::new();
    for round in 0..5u32 {
        state.add(7, node("a"));
        state.add(8 + round, GlobalObject::Link);
        state.add(7, node("b"));
        assert_eq!(state.remove(7), Some(node("b")));
        state.add(100 + round, node("c"));
        assert_eq!(state.remove(8 + round), Some(GlobalObject::Link));
        assert_eq!(state.get(7), None);
        assert_eq!(state.remove(7), None);
    }
}

#[test]
fn tracker_takes_an_identifier_again_after_removal() {
    let mut state = State::new();
    state.add(10, node("mic"));
    state.remove(10);
    state.add(10, node("camera"));
    assert_eq!(state.get(10), Some(&node("camera")));
}
