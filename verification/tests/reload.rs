use serial_mock_service::config::{PortConfig, ScenarioConfig, TriggerConfig};
use serial_mock_service::port::{PortState, ReadEvent};
use serial_mock_service::reload::ReloadStep;
use serial_mock_service::server::{PortMap, Server};

fn cfg(name: &str, response: &str) -> PortConfig {
    PortConfig {
        name: name.into(),
        initial_scenario: "idle".into(),
        symlink: None,
        transport: Default::default(),
        framing: None,
        capture: Default::default(),
        scenarios: vec![ScenarioConfig {
            name: "idle".into(),
            triggers: vec![TriggerConfig { name: "t".into(), response: response.into() }],
            input_rules: vec![],
        }],
    }
}

fn spawn(cfg: &PortConfig) -> PortState {
    PortState::spawn(cfg).ok().unwrap()
}

/// Applies a configuration, starting what has to be started.
fn apply(server: &mut Server, configured: &Vec<PortConfig>) -> (Vec<String>, Vec<String>) {
    let existing = server.ports.names();
    let mut steps = Vec::new();
    for cfg in configured {
        let step = server.reload_port(cfg);
        steps.push(format!("{:?}", step));
        if matches!(step, ReloadStep::Spawn) {
            server.ports.insert(spawn(cfg));
        }
    }
    let gone = server.drop_stale(&existing, configured);
    (steps, gone.iter().map(|p| p.name().to_string()).collect())
}

#[test]
fn reload_swaps_starts_and_drops() {
    let mut server = Server { ports: PortMap::new() };
    let (steps, gone) = apply(&mut server, &vec![cfg("a", "1"), cfg("b", "2")]);
    assert_eq!(steps, vec!["Spawn", "Spawn"]);
    assert!(gone.is_empty());

    let state = server.ports.get_mut("a").unwrap();
    state.attach(Some("/dev/pts/3".to_string()), None);
    let spec = state.framing().clone();
    state.reader_step(&spec, &mut Vec::new(), ReadEvent::Data(b"xyz".to_vec()));

    let (steps, gone) = apply(&mut server, &vec![cfg("c", "3"), cfg("a", "4")]);
    assert_eq!(steps, vec!["Spawn", "Swapped"]);
    assert_eq!(gone, vec!["b".to_string()]);
    let mut names = server.ports.names();
    names.sort();
    assert_eq!(names, vec!["a".to_string(), "c".to_string()]);

    let state = server.ports.get("a").unwrap();
    assert_eq!(state.device_path_str(), "/dev/pts/3");
    assert_eq!(state.capture().raw_bytes(), b"xyz");
    assert_eq!(state.fire_trigger("t").unwrap(), b"4");
}

#[test]
fn a_port_that_cannot_take_the_configuration_goes_on() {
    let mut server = Server { ports: PortMap::new() };
    server.ports.insert(spawn(&cfg("a", "1")));
    let mut bad = cfg("a", "2");
    bad.scenarios[0].name = "other".to_string();
    match server.reload_port(&bad) {
        ReloadStep::Kept(e) => assert_eq!(e, "port a: no usable scenario after reload"),
        step => panic!("{:?}", step),
    }
    assert_eq!(server.ports.get("a").unwrap().fire_trigger("t").unwrap(), b"1");
}

#[test]
fn stale_names_that_are_gone_already_are_not_told() {
    let mut server = Server { ports: PortMap::new() };
    server.ports.insert(spawn(&cfg("a", "1")));
    let existing = vec!["a".to_string(), "a".to_string(), "x".to_string()];
    let gone = server.drop_stale(&existing, &Vec::new());
    assert_eq!(gone.len(), 1);
    assert_eq!(gone[0].name(), "a");
    assert!(server.ports.get("a").is_none());
}

#[test]
fn the_port_map_is_a_map() {
    let mut ports = PortMap::new();
    assert!(ports.get("a").is_none());
    ports.insert(spawn(&cfg("a", "1")));
    ports.insert(spawn(&cfg("b", "2")));
    ports.insert(spawn(&cfg("a", "3")));
    assert_eq!(ports.names(), vec!["a".to_string(), "b".to_string()]);
    assert_eq!(ports.values().len(), 2);
    assert_eq!(ports.values()[0].fire_trigger("t").unwrap(), b"3");
    assert!(ports.get_mut("c").is_none());
    assert_eq!(ports.remove("a").unwrap().name(), "a");
    assert!(ports.remove("a").is_none());
    assert_eq!(ports.names(), vec!["b".to_string()]);
}
