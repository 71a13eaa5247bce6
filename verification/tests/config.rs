use serial_mock_service::bytes::{Bytes, BytesRepr, TaggedBytes};
use serial_mock_service::config::{
    regex_verdict, validate, CaptureConfig, Config, HttpConfig, InputRuleConfig, LogFormat,
    LoggingConfig, MaskConfig, Match, MatchConfig, PortConfig, ScenarioConfig, TriggerConfig,
};
use serial_mock_service::framing::FramingConfig;
use serial_mock_service::transport::TransportConfig;

fn text(value: &serde_yaml::Value, key: &str) -> Option<String> {
    value.get(key).and_then(|v| v.as_str()).map(String::from)
}

fn items(value: &serde_yaml::Value, key: &str) -> Vec<serde_yaml::Value> {
    value.get(key).and_then(|v| v.as_sequence()).cloned().unwrap_or_default()
}

fn bytes(value: &serde_yaml::Value) -> Bytes {
    let literal = match value.as_str() {
        Some(s) => BytesRepr::Plain(s.to_string()),
        None => BytesRepr::Tagged(TaggedBytes {
            hex: text(value, "hex"),
            base64: text(value, "base64"),
            utf8: text(value, "utf8"),
            bytes: None,
        }),
    };
    Bytes::from_literal(literal).unwrap()
}

fn rule(value: &serde_yaml::Value) -> InputRuleConfig {
    let m = value.get("match").unwrap();
    InputRuleConfig {
        match_: MatchConfig {
            exact: m.get("exact").map(bytes),
            regex: text(m, "regex"),
            mask: m.get("mask").map(|mask| MaskConfig {
                pattern: bytes(mask.get("pattern").unwrap()),
                mask: bytes(mask.get("mask").unwrap()),
            }),
        },
        response: bytes(value.get("response").unwrap()),
    }
}

fn scenario(value: &serde_yaml::Value) -> ScenarioConfig {
    ScenarioConfig {
        name: text(value, "name").unwrap(),
        triggers: items(value, "triggers")
            .iter()
            .map(|t| TriggerConfig {
                name: text(t, "name").unwrap(),
                response: bytes(t.get("response").unwrap()),
            })
            .collect(),
        input_rules: items(value, "input_rules").iter().map(rule).collect(),
    }
}

fn port(value: &serde_yaml::Value) -> PortConfig {
    PortConfig {
        name: text(value, "name").unwrap(),
        initial_scenario: text(value, "initial_scenario").unwrap(),
        symlink: text(value, "symlink"),
        transport: TransportConfig::default(),
        framing: None,
        capture: CaptureConfig::default(),
        scenarios: items(value, "scenarios").iter().map(scenario).collect(),
    }
}

fn parse(yaml: &str) -> Result<Config, String> {
    let value: serde_yaml::Value =
        serde_yaml::from_str(yaml).map_err(|e| format!("parse: {}", e))?;
    let cfg = Config {
        http: HttpConfig::default(),
        logging: LoggingConfig::default(),
        ports: items(&value, "ports").iter().map(port).collect(),
    };
    validate(&cfg)?;
    Ok(cfg)
}

const MINIMAL: &str = r#"
ports:
  - name: p1
    initial_scenario: idle
    scenarios:
      - name: idle
        triggers:
          - { name: print, response: "X\r\n" }
"#;

#[test]
fn minimal_config_parses() {
    let cfg = parse(MINIMAL).unwrap();
    assert_eq!(cfg.ports.len(), 1);
    assert_eq!(cfg.ports[0].name, "p1");
    assert_eq!(cfg.http.bind, "127.0.0.1:5000");
}

#[test]
fn duplicate_port_names_rejected() {
    let yaml = r#"
ports:
  - { name: p, initial_scenario: s, scenarios: [{name: s, triggers: [], input_rules: []}] }
  - { name: p, initial_scenario: s, scenarios: [{name: s, triggers: [], input_rules: []}] }
"#;
    let err = parse(yaml).unwrap_err();
    assert!(err.contains("duplicate port"), "{}", err);
}

#[test]
fn unknown_initial_scenario_rejected() {
    let yaml = r#"
ports:
  - name: p
    initial_scenario: missing
    scenarios:
      - { name: idle, triggers: [], input_rules: [] }
"#;
    let err = parse(yaml).unwrap_err();
    assert!(err.contains("initial_scenario"), "{}", err);
}

#[test]
fn duplicate_scenario_names_rejected() {
    let yaml = r#"
ports:
  - name: p
    initial_scenario: s
    scenarios:
      - { name: s, triggers: [], input_rules: [] }
      - { name: s, triggers: [], input_rules: [] }
"#;
    let err = parse(yaml).unwrap_err();
    assert!(err.contains("duplicate scenario"), "{}", err);
}

#[test]
fn invalid_regex_rejected() {
    let yaml = r#"
ports:
  - name: p
    initial_scenario: s
    scenarios:
      - name: s
        triggers: []
        input_rules:
          - match: { regex: "(" }
            response: "X"
"#;
    let err = parse(yaml).unwrap_err();
    assert!(err.contains("invalid regex"), "{}", err);
}

#[test]
fn match_with_both_fields_rejected() {
    let yaml = r#"
ports:
  - name: p
    initial_scenario: s
    scenarios:
      - name: s
        triggers: []
        input_rules:
          - match: { exact: "A", regex: "B" }
            response: "X"
"#;
    let err = parse(yaml).unwrap_err();
    assert!(err.contains("only one of"), "{}", err);
}

#[test]
fn match_with_no_field_rejected() {
    let yaml = r#"
ports:
  - name: p
    initial_scenario: s
    scenarios:
      - name: s
        triggers: []
        input_rules:
          - match: {}
            response: "X"
"#;
    let err = parse(yaml).unwrap_err();
    assert!(err.contains("either"), "{}", err);
}

fn one_port(port: PortConfig) -> Config {
    Config { http: HttpConfig::default(), logging: LoggingConfig::default(), ports: vec![port] }
}

#[test]
fn problems_are_told_with_their_place() {
    let base = parse(MINIMAL).unwrap().ports[0].clone();

    let mut p = base.clone();
    p.scenarios.clear();
    assert_eq!(
        validate(&one_port(p)).unwrap_err(),
        "port p1: must declare at least one scenario"
    );

    let mut p = base.clone();
    let again = p.scenarios[0].triggers[0].clone();
    p.scenarios[0].triggers.push(again);
    assert_eq!(
        validate(&one_port(p)).unwrap_err(),
        "port p1 scenario idle: duplicate trigger: print"
    );

    let mut p = base.clone();
    p.initial_scenario = "no \"such\"".to_string();
    assert_eq!(
        validate(&one_port(p)).unwrap_err(),
        "port p1: initial_scenario \"no \\\"such\\\"\" not in scenarios"
    );

    let mut p = base.clone();
    p.framing = Some(FramingConfig::Fixed { length: 0 });
    assert_eq!(
        validate(&one_port(p)).unwrap_err(),
        "port p1: framing fixed length must be greater than zero"
    );

    let mut p = base.clone();
    p.scenarios[0].input_rules.push(InputRuleConfig {
        match_: MatchConfig {
            exact: None,
            regex: None,
            mask: Some(MaskConfig { pattern: vec![1u8, 2].into(), mask: vec![1u8].into() }),
        },
        response: "x".into(),
    });
    assert_eq!(
        validate(&one_port(p)).unwrap_err(),
        "port p1 scenario idle rule 0: match: `pattern` and `mask` must have the same length"
    );

    let mut cfg = one_port(base.clone());
    cfg.ports.push(base.clone());
    assert_eq!(validate(&cfg).unwrap_err(), "duplicate port name: p1");

    assert!(validate(&one_port(base)).is_ok());
}

#[test]
fn each_kind_of_match_is_resolved() {
    let none = MatchConfig { exact: None, regex: None, mask: None };
    let exact = MatchConfig { exact: Some("A".into()), ..none.clone() };
    assert!(matches!(exact.resolve(), Ok(Match::Exact(b)) if b == b"A"));
    let regex = MatchConfig { regex: Some("B".to_string()), ..none.clone() };
    assert!(matches!(regex.resolve(), Ok(Match::Regex(p)) if p == "B"));
    let mask = MatchConfig {
        mask: Some(MaskConfig { pattern: vec![1u8].into(), mask: vec![2u8].into() }),
        ..none.clone()
    };
    assert!(
        matches!(mask.resolve(), Ok(Match::Mask { pattern, mask }) if pattern == [1] && mask == [2])
    );
    assert_eq!(
        none.resolve().unwrap_err(),
        "match: must set either `exact`, `regex` or `mask`"
    );
    let all = MatchConfig { exact: Some("A".into()), ..mask };
    assert_eq!(
        all.resolve().unwrap_err(),
        "match: set only one of `exact`, `regex` or `mask`"
    );
}

#[test]
fn regex_problems_quote_the_pattern() {
    assert_eq!(
        regex_verdict("(\n", Err("why".to_string())),
        Some("invalid regex \"(\\n\": why".to_string())
    );
    assert_eq!(regex_verdict("a", Ok(regex::bytes::Regex::new("a").unwrap())), None);
}

#[test]
fn patterns_are_judged_over_bytes() {
    let mut p = parse(MINIMAL).unwrap().ports[0].clone();
    p.scenarios[0].input_rules.push(InputRuleConfig {
        match_: MatchConfig {
            exact: None,
            regex: Some(r"(?-u)^\x02.\x03$".to_string()),
            mask: None,
        },
        response: "x".into(),
    });
    assert_eq!(validate(&one_port(p.clone())), Ok(()));
    assert!(serial_mock_service::port::PortState::spawn(&p).is_ok());
}

#[test]
fn config_defaults() {
    assert_eq!(LoggingConfig::default().level, "info");
    assert_eq!(LoggingConfig::default().format, LogFormat::Text);
    assert_eq!(CaptureConfig::default().max_events, 1000);
    assert_eq!(CaptureConfig::default().max_raw_bytes, 65536);
    assert!(matches!(TransportConfig::default(), TransportConfig::Pty));
}
