use serial_mock_service::config::{InputRuleConfig, MaskConfig, MatchConfig};
use serial_mock_service::matching::{compile_rules, regex_matcher};

fn exact(s: &str, resp: &str) -> InputRuleConfig {
    InputRuleConfig {
        match_: MatchConfig { exact: Some(s.into()), regex: None, mask: None },
        response: resp.into(),
    }
}

fn regex_rule(p: &str, resp: &str) -> InputRuleConfig {
    InputRuleConfig {
        match_: MatchConfig { exact: None, regex: Some(p.into()), mask: None },
        response: resp.into(),
    }
}

#[test]
fn exact_matcher_byte_equal_only() {
    let rules = compile_rules(&[exact("Q\r\n", "X")]).unwrap();
    assert!(rules[0].matcher.matches(b"Q\r\n"));
    assert!(!rules[0].matcher.matches(b"Q\r"));
    assert!(!rules[0].matcher.matches(b"q\r\n"));
    assert!(!rules[0].matcher.matches(b"Q\r\nX"));
}

#[test]
fn regex_matcher_compiles_and_matches() {
    let rules = compile_rules(&[regex_rule(r"^GET .*\r?\n$", "OK")]).unwrap();
    assert!(rules[0].matcher.matches(b"GET status\r\n"));
    assert!(rules[0].matcher.matches(b"GET \r\n"));
    assert!(!rules[0].matcher.matches(b"POST x\r\n"));
    assert!(!rules[0].matcher.matches(b"GET\r\n"), "needs literal space");
}

#[test]
fn invalid_regex_reports_rule_index() {
    let err = compile_rules(&[exact("a", "x"), regex_rule("(", "y")]).unwrap_err();
    assert!(err.contains("rule 1"), "got: {}", err);
}

#[test]
fn response_bytes_preserved_verbatim() {
    let rules = compile_rules(&[exact("Q", "S S  12.50 kg\r\n")]).unwrap();
    assert_eq!(rules[0].response, b"S S  12.50 kg\r\n");
}

fn mask_rule(pattern: Vec<u8>, mask: Vec<u8>, resp: Vec<u8>) -> InputRuleConfig {
    InputRuleConfig {
        match_: MatchConfig {
            exact: None,
            regex: None,
            mask: Some(MaskConfig { pattern: pattern.into(), mask: mask.into() }),
        },
        response: resp.into(),
    }
}

#[test]
fn exact_matcher_works_on_binary_bytes() {
    let rule = InputRuleConfig {
        match_: MatchConfig {
            exact: Some(vec![0x02u8, 0x51, 0x03].into()),
            regex: None,
            mask: None,
        },
        response: vec![0x06u8].into(),
    };
    let rules = compile_rules(&[rule]).unwrap();
    assert!(rules[0].matcher.matches(&[0x02, 0x51, 0x03]));
    assert!(!rules[0].matcher.matches(&[0x02, 0x51]));
    assert_eq!(rules[0].response, vec![0x06]);
}

#[test]
fn mask_matcher_ignores_masked_bytes() {
    // Match AA ?? 55 (middle byte don't-care).
    let rules = compile_rules(&[mask_rule(
        vec![0xAA, 0x00, 0x55],
        vec![0xFF, 0x00, 0xFF],
        vec![0x06],
    )])
    .unwrap();
    assert!(rules[0].matcher.matches(&[0xAA, 0x12, 0x55]));
    assert!(rules[0].matcher.matches(&[0xAA, 0xFF, 0x55]));
    assert!(!rules[0].matcher.matches(&[0xAB, 0x12, 0x55]), "first byte differs");
    assert!(!rules[0].matcher.matches(&[0xAA, 0x12, 0x54]), "last byte differs");
    assert!(!rules[0].matcher.matches(&[0xAA, 0x12]), "length differs");
}

#[test]
fn mask_counts_single_bits() {
    let rules = compile_rules(&[mask_rule(vec![0b1010_1111], vec![0b1111_0000], vec![1])]).unwrap();
    assert!(rules[0].matcher.matches(&[0b1010_0000]));
    assert!(rules[0].matcher.matches(&[0b1010_0110]));
    assert!(!rules[0].matcher.matches(&[0b1011_1111]));
}

#[test]
fn regex_works_on_bytes_that_are_no_text() {
    let rules = compile_rules(&[regex_rule(r"(?-u)^\x02.\x03$", "ok")]).unwrap();
    assert!(rules[0].matcher.matches(&[0x02, 0xff, 0x03]));
    assert!(!rules[0].matcher.matches(&[0x02, 0x03]));
}

#[test]
fn a_refused_pattern_is_reported_with_its_cause() {
    let err = regex_matcher("(", Err("cause".to_string())).unwrap_err();
    assert_eq!(err, "regex \"(\": cause");
    let re = regex::bytes::Regex::new("b+").unwrap();
    let matcher = regex_matcher("b+", Ok(re)).unwrap();
    assert!(matcher.matches(b"abbc"));
    assert!(!matcher.matches(b"ac"));
}

#[test]
fn malformed_matches_are_refused_with_their_index() {
    let nothing = InputRuleConfig {
        match_: MatchConfig { exact: None, regex: None, mask: None },
        response: "x".into(),
    };
    let err = compile_rules(&[nothing]).unwrap_err();
    assert_eq!(err, "rule 0: match: must set either `exact`, `regex` or `mask`");
    let err = compile_rules(&[mask_rule(vec![1, 2], vec![1], vec![])]).unwrap_err();
    assert_eq!(err, "rule 0: match: `pattern` and `mask` must have the same length");
}
