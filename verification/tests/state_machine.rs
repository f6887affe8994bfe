use usahp::config::{InputKind, Mapping};
use usahp::protocol::{Action, SwitchState};
use usahp::state::{LogicalTransition, StateError, SwitchStateMachine};

fn keyboard(id: &str, switch_id: &str) -> Mapping {
    Mapping {
        id: id.into(),
        switch_id: switch_id.into(),
        input: InputKind::Keyboard,
        code: id.into(),
        device: None,
    }
}

fn mappings() -> Vec<Mapping> {
    vec![keyboard("space", "switch_1"), keyboard("enter", "switch_1")]
}

#[test]
fn many_to_one_emits_only_outer_edges() {
    let mut state = SwitchStateMachine::new(&mappings());
    assert!(state.apply("space", Action::Pressed).unwrap().is_some());
    assert!(state.apply("enter", Action::Pressed).unwrap().is_none());
    assert!(state.apply("space", Action::Released).unwrap().is_none());
    assert!(state.apply("enter", Action::Released).unwrap().is_some());
}

#[test]
fn rejects_duplicate_edges() {
    let mut state = SwitchStateMachine::new(&mappings());
    state.apply("space", Action::Pressed).unwrap();
    assert!(matches!(
        state.apply("space", Action::Pressed),
        Err(StateError::InvalidTransition { .. })
    ));
}

#[test]
fn release_all_clears_many_to_one_state_in_switch_order() {
    let mut all = mappings();
    all.push(Mapping {
        id: "z".into(),
        switch_id: "switch_0".into(),
        input: InputKind::Keyboard,
        code: "z".into(),
        device: None,
    });
    let mut state = SwitchStateMachine::new(&all);
    state.apply("space", Action::Pressed).unwrap();
    state.apply("enter", Action::Pressed).unwrap();
    state.apply("z", Action::Pressed).unwrap();
    let releases = state.release_all();
    assert_eq!(releases.len(), 2);
    assert_eq!(releases[0].switch_id, "switch_0");
    assert_eq!(releases[1].switch_id, "switch_1");
    assert!(state
        .snapshots()
        .iter()
        .all(|s| s.state == SwitchState::Released));
    assert!(matches!(
        state.apply("space", Action::Released),
        Err(StateError::InvalidTransition { .. })
    ));
}

#[test]
fn transitions_name_the_logical_switch_and_action() {
    let mut state = SwitchStateMachine::new(&mappings());
    assert_eq!(
        state.apply("enter", Action::Pressed).unwrap(),
        Some(LogicalTransition { switch_id: "switch_1".into(), action: Action::Pressed })
    );
    assert_eq!(
        state.apply("enter", Action::Released).unwrap(),
        Some(LogicalTransition { switch_id: "switch_1".into(), action: Action::Released })
    );
}

#[test]
fn unknown_mapping_is_an_error_and_changes_nothing() {
    let mut state = SwitchStateMachine::new(&mappings());
    assert_eq!(
        state.apply("missing", Action::Pressed),
        Err(StateError::UnknownMapping("missing".into()))
    );
    assert!(state.apply("space", Action::Pressed).unwrap().is_some());
}

#[test]
fn releasing_an_unpressed_mapping_is_invalid() {
    let mut state = SwitchStateMachine::new(&mappings());
    assert_eq!(
        state.apply("space", Action::Released),
        Err(StateError::InvalidTransition { mapping_id: "space".into(), action: Action::Released })
    );
}

#[test]
fn snapshots_list_switches_in_sorted_order_with_state() {
    let all = vec![keyboard("b", "switch_b"), keyboard("a", "switch_a"), keyboard("c", "switch_b")];
    let mut state = SwitchStateMachine::new(&all);
    assert_eq!(state.switch_count(), 2);
    state.apply("c", Action::Pressed).unwrap();
    let snaps = state.snapshots();
    assert_eq!(snaps.len(), 2);
    assert_eq!(snaps[0].switch_id, "switch_a");
    assert_eq!(snaps[0].state, SwitchState::Released);
    assert_eq!(snaps[1].switch_id, "switch_b");
    assert_eq!(snaps[1].state, SwitchState::Pressed);
    assert!(snaps.iter().all(|s| s.confidence.is_none()));
}

#[test]
fn a_repeated_mapping_id_routes_to_its_last_switch() {
    let all = vec![keyboard("a", "switch_1"), keyboard("a", "switch_2")];
    let mut state = SwitchStateMachine::new(&all);
    assert_eq!(
        state.apply("a", Action::Pressed).unwrap(),
        Some(LogicalTransition { switch_id: "switch_2".into(), action: Action::Pressed })
    );
}

#[test]
fn press_then_release_returns_to_the_start() {
    let mut state = SwitchStateMachine::new(&mappings());
    state.apply("space", Action::Pressed).unwrap();
    state.apply("space", Action::Released).unwrap();
    assert!(state.snapshots().iter().all(|s| s.state == SwitchState::Released));
    assert!(state.release_all().is_empty());
    assert!(state.apply("space", Action::Pressed).unwrap().is_some());
}

#[test]
fn release_all_on_idle_machine_emits_nothing() {
    let mut state = SwitchStateMachine::new(&mappings());
    assert!(state.release_all().is_empty());
}

#[test]
fn second_release_all_releases_nothing_and_order_is_ascending() {
    let all = vec![keyboard("c", "switch_c"), keyboard("a", "switch_a"), keyboard("b", "switch_b")];
    let mut state = SwitchStateMachine::new(&all);
    for id in ["c", "a", "b"] {
        state.apply(id, Action::Pressed).unwrap();
    }
    let releases = state.release_all();
    let ids: Vec<&str> = releases.iter().map(|t| t.switch_id.as_str()).collect();
    assert_eq!(ids, vec!["switch_a", "switch_b", "switch_c"]);
    assert!(releases.iter().all(|t| t.action == Action::Released));
    assert!(state.release_all().is_empty());
}
