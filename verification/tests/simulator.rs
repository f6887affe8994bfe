use usahp::config::{InputKind, Mapping};
use usahp::protocol::Action;
use usahp::simulator::{mappings_for, parse_command, SimCommand};

fn keyboard(id: &str, switch_id: &str) -> Mapping {
    Mapping {
        id: id.into(),
        switch_id: switch_id.into(),
        input: InputKind::Keyboard,
        code: "Space".into(),
        device: None,
    }
}

fn configured() -> Vec<Mapping> {
    vec![keyboard("a", "switch_1"), keyboard("b", "switch_2"), keyboard("c", "switch_1")]
}

#[test]
fn one_simulated_mapping_per_switch() {
    let sim = mappings_for(&configured());
    assert_eq!(sim.len(), 2);
    assert_eq!(sim[0].id, "sim:switch_1");
    assert_eq!(sim[0].switch_id, "switch_1");
    assert_eq!(sim[0].input, InputKind::Keyboard);
    assert_eq!(sim[0].code, "simulator");
    assert_eq!(sim[0].device, None);
    assert_eq!(sim[1].id, "sim:switch_2");
    assert_eq!(sim[1].switch_id, "switch_2");
}

#[test]
fn no_mappings_give_no_simulated_mappings() {
    assert!(mappings_for(&[]).is_empty());
}

#[test]
fn press_and_release_commands_become_edges() {
    let mappings = configured();
    match parse_command("  press   switch_2 extra", &mappings) {
        SimCommand::Input(event) => {
            assert_eq!(event.mapping_id, "sim:switch_2");
            assert_eq!(event.action, Action::Pressed);
            assert_eq!(event.confidence.map(|c| f32::from_bits(c.bits)), Some(100.0));
        }
        other => panic!("unexpected {other:?}"),
    }
    match parse_command("release switch_1", &mappings) {
        SimCommand::Input(event) => {
            assert_eq!(event.mapping_id, "sim:switch_1");
            assert_eq!(event.action, Action::Released);
            assert_eq!(event.confidence.map(|c| f32::from_bits(c.bits)), Some(0.0));
        }
        other => panic!("unexpected {other:?}"),
    }
}

#[test]
fn malformed_commands_are_classified() {
    let mappings = configured();
    assert!(matches!(parse_command("", &mappings), SimCommand::Blank));
    assert!(matches!(parse_command(" \t ", &mappings), SimCommand::Blank));
    assert!(matches!(parse_command("press", &mappings), SimCommand::MissingSwitch));
    assert!(matches!(parse_command("release   ", &mappings), SimCommand::MissingSwitch));
    match parse_command("hold switch_1", &mappings) {
        SimCommand::UnknownCommand(word) => assert_eq!(word.iter().collect::<String>(), "hold"),
        other => panic!("unexpected {other:?}"),
    }
    match parse_command("press switch_9", &mappings) {
        SimCommand::UnknownSwitch(id) => assert_eq!(id.iter().collect::<String>(), "switch_9"),
        other => panic!("unexpected {other:?}"),
    }
    assert!(matches!(parse_command("PRESS switch_1", &mappings), SimCommand::UnknownCommand(_)));
}
