use usahp::config::{Config, ConfigError, InputKind, Mapping, ServerConfig, SimulatorConfig};
use usahp::protocol::Action;
use usahp::state::SwitchStateMachine;

fn keyboard(id: &str, switch_id: &str, code: &str) -> Mapping {
    Mapping {
        id: id.into(),
        switch_id: switch_id.into(),
        input: InputKind::Keyboard,
        code: code.into(),
        device: None,
    }
}

fn config(mappings: Vec<Mapping>) -> Config {
    Config {
        server: ServerConfig { port: 7312, client_queue_capacity: 8 },
        simulator: SimulatorConfig { stdin: true },
        mappings,
    }
}

#[test]
fn accepts_many_to_one_mapping() {
    let c = config(vec![
        keyboard("space", "switch_1", "Space"),
        keyboard("enter", "switch_1", "Return"),
    ]);
    assert_eq!(c.validate(), Ok(()));
    assert_eq!(c.mappings[0].switch_id, c.mappings[1].switch_id);
}

#[test]
fn validate_rejects_duplicate_mapping_ids() {
    let c = config(vec![
        keyboard("space", "switch_1", "Space"),
        keyboard("space", "switch_1", "Return"),
    ]);
    assert_eq!(c.validate(), Err(ConfigError::DuplicateMappingId("space".into())));
}

#[test]
fn rejects_configuration_without_mappings() {
    let c = config(Vec::new());
    assert_eq!(c.validate(), Err(ConfigError::NoMappings));
}

#[test]
fn missing_mappings_is_reported_before_zero_capacity() {
    let mut c = config(Vec::new());
    c.server.client_queue_capacity = 0;
    assert_eq!(c.validate(), Err(ConfigError::NoMappings));
}

#[test]
fn rejects_zero_queue_capacity() {
    let mut c = config(vec![keyboard("space", "switch_1", "Space")]);
    c.server.client_queue_capacity = 0;
    assert_eq!(c.validate(), Err(ConfigError::ZeroQueueCapacity));
}

#[test]
fn rejects_blank_switch_id() {
    let c = config(vec![
        keyboard("space", "switch_1", "Space"),
        keyboard("enter", " \t", "Return"),
    ]);
    assert_eq!(c.validate(), Err(ConfigError::EmptySwitchId("enter".into())));
}

#[test]
fn rejects_blank_code() {
    let c = config(vec![keyboard("space", "switch_1", "")]);
    assert_eq!(c.validate(), Err(ConfigError::EmptyCode("space".into())));
}

#[test]
fn first_problem_in_mapping_order_is_reported() {
    let c = config(vec![
        keyboard("a", "", "Space"),
        keyboard("a", "switch_1", "Space"),
    ]);
    assert_eq!(c.validate(), Err(ConfigError::EmptySwitchId("a".into())));
}

#[test]
fn duplicate_id_is_reported_before_blank_fields_of_the_same_mapping() {
    let c = config(vec![
        keyboard("a", "switch_1", "Space"),
        keyboard("a", "", ""),
    ]);
    assert_eq!(c.validate(), Err(ConfigError::DuplicateMappingId("a".into())));
}

#[test]
fn server_defaults() {
    let server = ServerConfig::default();
    assert_eq!(server.port, 7312);
    assert_eq!(server.client_queue_capacity, 256);
    assert!(!SimulatorConfig::default().stdin);
}

#[test]
fn valid_configuration_routes_each_mapping_to_its_own_switch() {
    let c = config(vec![
        keyboard("a", "switch_1", "Space"),
        keyboard("b", "switch_2", "Return"),
        keyboard("c", "switch_1", "Tab"),
    ]);
    assert_eq!(c.validate(), Ok(()));
    let mut state = SwitchStateMachine::new(&c.mappings);
    for m in &c.mappings {
        let t = state.apply(&m.id, Action::Pressed).unwrap();
        if let Some(t) = t {
            assert_eq!(t.switch_id, m.switch_id);
        }
        let t = state.apply(&m.id, Action::Released).unwrap().unwrap();
        assert_eq!(t.switch_id, m.switch_id);
    }
}
