use std::io;
use std::io::Write;
use std::time::Duration;

use serial_mock_service::config::{
    InputRuleConfig, MatchConfig, PortConfig, ScenarioConfig, TriggerConfig,
};
use serial_mock_service::framing::{FramingConfig, FramingSpec};
use serial_mock_service::port::{
    compile_scenario, finish_line, finish_trigger, fire_trigger_on, link_step, lookup_trigger,
    match_input_rule, poll_millis, process_line_on, recorded_rule, transport_error,
    CompiledScenario, LineOutcome, LinkSite, LinkStep, PortState, ReadEvent, ReaderStep,
};

/// Takes every byte that is written to it and counts the calls. It can be made
/// to fail the next write.
struct WriteSpy {
    pub bytes: Vec<u8>,
    pub write_calls: usize,
    pub flush_calls: usize,
    pub fail_next_write: bool,
}

impl WriteSpy {
    fn new() -> Self {
        Self { bytes: Vec::new(), write_calls: 0, flush_calls: 0, fail_next_write: false }
    }
}

impl io::Write for WriteSpy {
    fn write(&mut self, buf: &[u8]) -> io::Result<usize> {
        self.write_calls += 1;
        if self.fail_next_write {
            self.fail_next_write = false;
            return Err(io::Error::other("spy: forced fail"));
        }
        self.bytes.extend_from_slice(buf);
        Ok(buf.len())
    }
    fn flush(&mut self) -> io::Result<()> {
        self.flush_calls += 1;
        Ok(())
    }
}

fn write_out(sink: &mut WriteSpy, bytes: &[u8]) -> Result<(), String> {
    sink.write_all(bytes).map_err(|e| e.to_string())?;
    let _ = sink.flush();
    Ok(())
}

fn fire(sc: &CompiledScenario, name: &str, sink: &mut WriteSpy) -> Result<Vec<u8>, String> {
    let bytes = fire_trigger_on(sc, name)?;
    let written = write_out(sink, &bytes);
    finish_trigger(bytes, written)
}

fn process(
    sc: &CompiledScenario,
    line: &[u8],
    sink: &mut WriteSpy,
) -> Result<LineOutcome, (String, String)> {
    let outcome = process_line_on(sc, line);
    let written = match &outcome.1 {
        Some(bytes) => write_out(sink, bytes),
        None => Ok(()),
    };
    finish_line(outcome, written)
}

fn make_scenario() -> CompiledScenario {
    let cfg = ScenarioConfig {
        name: "idle".into(),
        triggers: vec![
            TriggerConfig { name: "print".into(), response: "S S  15.00 kg\r\n".into() },
            TriggerConfig { name: "tare".into(), response: "T OK\r\n".into() },
        ],
        input_rules: vec![
            InputRuleConfig {
                match_: MatchConfig { exact: Some("Q\r\n".into()), regex: None, mask: None },
                response: "S S  12.50 kg\r\n".into(),
            },
            InputRuleConfig {
                match_: MatchConfig {
                    exact: None,
                    regex: Some(r"^GET .*\r?\n$".into()),
                    mask: None,
                },
                response: "OK\r\n".into(),
            },
        ],
    };
    compile_scenario(&cfg).unwrap()
}

#[test]
fn lookup_trigger_returns_bytes_when_present() {
    let sc = make_scenario();
    assert_eq!(lookup_trigger(&sc, "print").unwrap(), b"S S  15.00 kg\r\n");
    assert_eq!(lookup_trigger(&sc, "tare").unwrap(), b"T OK\r\n");
}

#[test]
fn lookup_trigger_none_when_unknown() {
    let sc = make_scenario();
    assert!(lookup_trigger(&sc, "nope").is_none());
}

#[test]
fn match_input_rule_returns_first_match_index() {
    let sc = make_scenario();
    let (idx, resp) = match_input_rule(&sc, b"Q\r\n").unwrap();
    assert_eq!(idx, 0);
    assert_eq!(resp, b"S S  12.50 kg\r\n");
}

#[test]
fn match_input_rule_falls_through_to_regex() {
    let sc = make_scenario();
    let (idx, resp) = match_input_rule(&sc, b"GET ping\r\n").unwrap();
    assert_eq!(idx, 1);
    assert_eq!(resp, b"OK\r\n");
}

#[test]
fn match_input_rule_none_on_no_match() {
    let sc = make_scenario();
    assert!(match_input_rule(&sc, b"BOGUS\r\n").is_none());
}

#[test]
fn fire_trigger_writes_exact_bytes_to_collaborator() {
    let sc = make_scenario();
    let mut spy = WriteSpy::new();
    let bytes = fire(&sc, "print", &mut spy).unwrap();

    assert_eq!(spy.bytes, b"S S  15.00 kg\r\n");
    assert_eq!(spy.write_calls, 1);
    assert_eq!(bytes, b"S S  15.00 kg\r\n");
    assert!(spy.flush_calls >= 1, "expected flush after write");
}

#[test]
fn fire_trigger_does_not_touch_collaborator_when_trigger_unknown() {
    let sc = make_scenario();
    let mut spy = WriteSpy::new();
    let err = fire(&sc, "nope", &mut spy).unwrap_err();
    assert!(err.contains("unknown trigger"));
    assert_eq!(spy.write_calls, 0, "no write should have been issued");
    assert!(spy.bytes.is_empty());
}

#[test]
fn fire_trigger_surfaces_collaborator_write_failure() {
    let sc = make_scenario();
    let mut spy = WriteSpy::new();
    spy.fail_next_write = true;
    let err = fire(&sc, "print", &mut spy).unwrap_err();
    assert!(err.contains("write master"), "{}", err);
    assert_eq!(spy.write_calls, 1);
}

#[test]
fn process_line_writes_response_for_exact_match() {
    let sc = make_scenario();
    let mut spy = WriteSpy::new();
    let (label, resp) = process(&sc, b"Q\r\n", &mut spy).unwrap();
    assert_eq!(label.as_deref(), Some("idle:0"));
    assert_eq!(resp.as_deref(), Some(b"S S  12.50 kg\r\n".as_slice()));
    assert_eq!(spy.bytes, b"S S  12.50 kg\r\n");
    assert_eq!(spy.write_calls, 1);
}

#[test]
fn process_line_writes_response_for_regex_match() {
    let sc = make_scenario();
    let mut spy = WriteSpy::new();
    let (label, _) = process(&sc, b"GET ping\r\n", &mut spy).unwrap();
    assert_eq!(label.as_deref(), Some("idle:1"));
    assert_eq!(spy.bytes, b"OK\r\n");
}

#[test]
fn process_line_silent_when_no_rule_matches() {
    let sc = make_scenario();
    let mut spy = WriteSpy::new();
    let (label, resp) = process(&sc, b"BOGUS\r\n", &mut spy).unwrap();
    assert!(label.is_none());
    assert!(resp.is_none());
    assert_eq!(spy.write_calls, 0, "collaborator must not be called");
    assert!(spy.bytes.is_empty());
}

#[test]
fn process_line_surfaces_write_error_with_rule_label() {
    let sc = make_scenario();
    let mut spy = WriteSpy::new();
    spy.fail_next_write = true;
    let err = process(&sc, b"Q\r\n", &mut spy).unwrap_err();
    assert_eq!(err.0, "idle:0", "label preserved so caller can still record event");
    assert_eq!(spy.write_calls, 1);
}

fn test_port_cfg() -> PortConfig {
    PortConfig {
        name: "p".into(),
        initial_scenario: "idle".into(),
        symlink: None,
        transport: Default::default(),
        framing: None,
        capture: Default::default(),
        scenarios: vec![
            ScenarioConfig {
                name: "idle".into(),
                triggers: vec![TriggerConfig {
                    name: "print".into(),
                    response: "AAA\r\n".into(),
                }],
                input_rules: vec![],
            },
            ScenarioConfig {
                name: "error".into(),
                triggers: vec![TriggerConfig {
                    name: "print".into(),
                    response: "ERR\r\n".into(),
                }],
                input_rules: vec![],
            },
        ],
    }
}

fn spawn() -> PortState {
    match PortState::spawn(&test_port_cfg()) {
        Ok(state) => state,
        Err(e) => panic!("{}", e),
    }
}

#[test]
fn switch_scenario_changes_active_arc() {
    let mut state = spawn();
    assert_eq!(state.active().name, "idle");
    state.switch_scenario("error").unwrap();
    assert_eq!(state.active().name, "error");
}

#[test]
fn switch_scenario_rejects_unknown() {
    let mut state = spawn();
    let err = state.switch_scenario("ghost").unwrap_err();
    assert!(err.contains("unknown scenario"));
    assert_eq!(state.active().name, "idle");
}

#[test]
fn swap_config_preserves_active_when_present() {
    let mut state = spawn();
    state.switch_scenario("error").unwrap();
    // Reload with same scenario set: active should stay `error`.
    state.swap_config(&test_port_cfg()).unwrap();
    assert_eq!(state.active().name, "error");
}

#[test]
fn swap_config_falls_back_to_initial_when_active_disappears() {
    let mut state = spawn();
    state.switch_scenario("error").unwrap();

    // New config drops the `error` scenario.
    let mut new_cfg = test_port_cfg();
    new_cfg.scenarios.retain(|s| s.name != "error");
    state.swap_config(&new_cfg).unwrap();

    assert_eq!(state.active().name, "idle");
}

#[test]
fn port_errors_read_well() {
    let mut cfg = test_port_cfg();
    cfg.initial_scenario = "ghost".into();
    assert_eq!(
        PortState::spawn(&cfg).err().unwrap(),
        "port p: initial scenario missing"
    );
    let mut state = spawn();
    assert_eq!(state.switch_scenario("ghost").unwrap_err(), "unknown scenario: ghost");
    assert_eq!(state.fire_trigger("ghost").unwrap_err(), "unknown trigger: ghost");
    cfg.scenarios.remove(0);
    assert_eq!(
        state.swap_config(&cfg).unwrap_err(),
        "port p: no usable scenario after reload"
    );
    assert_eq!(state.active().name, "idle");
    cfg.scenarios[0].input_rules.push(InputRuleConfig {
        match_: MatchConfig { exact: None, regex: Some("(".into()), mask: None },
        response: "x".into(),
    });
    let err = state.swap_config(&cfg).unwrap_err();
    assert!(err.starts_with("scenario error: rule 0: regex \"(\": "), "{}", err);
    assert_eq!(
        finish_trigger(vec![1], Err("gone".to_string())).unwrap_err(),
        "write master: gone"
    );
    assert_eq!(transport_error("p", "busy"), "port p: open transport: busy");
}

#[test]
fn later_triggers_of_a_name_count() {
    let cfg = ScenarioConfig {
        name: "s".into(),
        triggers: vec![
            TriggerConfig { name: "a".into(), response: "1".into() },
            TriggerConfig { name: "b".into(), response: "2".into() },
            TriggerConfig { name: "a".into(), response: "3".into() },
        ],
        input_rules: vec![],
    };
    let sc = compile_scenario(&cfg).unwrap();
    assert_eq!(lookup_trigger(&sc, "a").unwrap(), b"3");
    assert_eq!(lookup_trigger(&sc, "b").unwrap(), b"2");
}

#[test]
fn device_path_is_shown() {
    let mut state = spawn();
    assert_eq!(state.device_path_str(), "<none>");
    assert_eq!(state.symlink(), None);
    assert!(!state.owns_link("/dev/pts/1"));
    state.attach(Some("/dev/pts/1".to_string()), Some("/tmp/link".to_string()));
    assert_eq!(state.device_path_str(), "/dev/pts/1");
    assert_eq!(state.symlink(), Some("/tmp/link"));
    assert!(state.owns_link("/dev/pts/1"));
    assert!(!state.owns_link("/dev/pts/2"));
    for own in ["/dev//pts/1", "/dev/./pts/1", "//dev/pts/1/", "/./dev/pts/1/."] {
        assert!(state.owns_link(own), "{}", own);
    }
    for other in ["dev/pts/1", "./dev/pts/1", "/dev/pts/../pts/1", "/dev/pts", "/", ""] {
        assert!(!state.owns_link(other), "{}", other);
    }
    assert_eq!(state.name(), "p");
}

#[test]
fn links_are_compared_as_paths() {
    let paths = ["", "/", "//", ".", "./", "a", "./a", "a/.", "a//b/", "a/b", "/a/./b", "/a/b", ".."];
    for a in paths {
        let mut state = spawn();
        state.attach(Some(a.to_string()), Some("/tmp/link".to_string()));
        for b in paths {
            let same = std::path::Path::new(a) == std::path::Path::new(b);
            assert_eq!(state.owns_link(b), same, "{} and {}", a, b);
        }
    }
}

#[test]
fn reader_captures_and_cuts() {
    let mut state = spawn();
    let spec = FramingSpec::from_config(None);
    let mut buf = Vec::new();
    let step = state.reader_step(&spec, &mut buf, ReadEvent::Data(b"Q\r\nGE".to_vec()));
    match step {
        ReaderStep::Frames(frames) => assert_eq!(frames, vec![b"Q\r\n".to_vec()]),
        ReaderStep::Exit => panic!("reader gave up"),
    }
    assert_eq!(buf, b"GE");
    assert_eq!(state.capture().raw_bytes(), b"Q\r\nGE");
    assert!(matches!(state.reader_step(&spec, &mut buf, ReadEvent::Eof), ReaderStep::Exit));
    assert!(matches!(state.reader_step(&spec, &mut buf, ReadEvent::Failed), ReaderStep::Exit));
}

#[test]
fn reader_flushes_after_a_quiet_gap() {
    let mut cfg = test_port_cfg();
    cfg.framing = Some(FramingConfig::IdleTimeout { quiet_ms: 20 });
    let mut state = PortState::spawn(&cfg).ok().unwrap();
    let spec = state.framing().clone();
    let mut buf = Vec::new();
    let step = state.reader_step(&spec, &mut buf, ReadEvent::Data(vec![1, 2]));
    assert!(matches!(step, ReaderStep::Frames(frames) if frames.is_empty()));
    let step = state.reader_step(&spec, &mut buf, ReadEvent::Quiet);
    assert!(matches!(step, ReaderStep::Frames(frames) if frames == vec![vec![1, 2]]));
    assert!(buf.is_empty());
    assert_eq!(poll_millis(spec.idle_timeout().unwrap()), 20);
}

#[test]
fn waits_fit_the_system_call() {
    assert_eq!(poll_millis(Duration::from_millis(0)), 0);
    assert_eq!(poll_millis(Duration::from_millis(u64::MAX)), i32::MAX);
    assert_eq!(poll_millis(Duration::from_millis(i32::MAX as u64)), i32::MAX);
}

#[test]
fn frames_are_recorded_with_their_rule() {
    let mut state = spawn();
    let outcome = state.answer_frame(b"BOGUS\n");
    let rule = recorded_rule(finish_line(outcome, Ok(())));
    state.record_frame(b"BOGUS\n".to_vec(), rule);
    let rule = recorded_rule(Err(("idle:3".to_string(), "gone".to_string())));
    state.record_frame(b"x".to_vec(), rule);
    let events = state.capture().events_since(0);
    assert_eq!(events[0].matched_rule, None);
    assert_eq!(events[0].data, b"BOGUS\n");
    assert_eq!(events[1].matched_rule.as_deref(), Some("idle:3"));
}

#[test]
fn links_replace_links_only() {
    assert_eq!(link_step(LinkSite::Free), LinkStep::Create);
    assert_eq!(link_step(LinkSite::Symlink), LinkStep::Replace);
    assert_eq!(link_step(LinkSite::Other), LinkStep::Refuse);
}

#[test]
fn reload_keeps_device_and_capture() {
    let mut state = spawn();
    state.attach(Some("/dev/pts/1".to_string()), None);
    let spec = state.framing().clone();
    let mut buf = Vec::new();
    state.reader_step(&spec, &mut buf, ReadEvent::Data(b"raw".to_vec()));
    state.record_frame(b"f".to_vec(), None);
    let mut cfg = test_port_cfg();
    cfg.scenarios[0].triggers[0].response = "NEW".into();
    state.swap_config(&cfg).unwrap();
    assert_eq!(state.device_path_str(), "/dev/pts/1");
    assert_eq!(state.capture().raw_bytes(), b"raw");
    assert_eq!(state.capture().events_since(0).len(), 1);
    assert_eq!(state.fire_trigger("print").unwrap(), b"NEW");
}
