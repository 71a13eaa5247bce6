use serial_mock_service::cli::{complete_names, CompleteKind};
use serial_mock_service::config::{
    InputRuleConfig, MatchConfig, PortConfig, ScenarioConfig, TriggerConfig,
};
use serial_mock_service::http::{
    respond_fired, route, split_query, strip_header, url_decode, Action, HeaderStep, Outcome,
    Request, RequestHead, Response, Route, MAX_BODY_BYTES, MAX_HEADER_BYTES,
};
use serial_mock_service::json::{hex_encode, json_escape};
use serial_mock_service::port::{
    finish_line, finish_trigger, recorded_rule, PortState, ReadEvent, ReaderStep,
};
use serial_mock_service::server::{PortMap, Server};

fn scale() -> PortConfig {
    PortConfig {
        name: "scale-1".into(),
        initial_scenario: "idle".into(),
        symlink: None,
        transport: Default::default(),
        framing: None,
        capture: Default::default(),
        scenarios: vec![
            ScenarioConfig {
                name: "idle".into(),
                triggers: vec![TriggerConfig {
                    name: "print".into(),
                    response: "S S  15.00 kg\r\n".into(),
                }],
                input_rules: vec![
                    InputRuleConfig {
                        match_: MatchConfig { exact: Some("Q\r\n".into()), regex: None, mask: None },
                        response: "S S  12.50 kg\r\n".into(),
                    },
                    InputRuleConfig {
                        match_: MatchConfig {
                            exact: None,
                            regex: Some("^GET .*\r?\n$".into()),
                            mask: None,
                        },
                        response: "OK\r\n".into(),
                    },
                ],
            },
            ScenarioConfig {
                name: "error".into(),
                triggers: vec![TriggerConfig { name: "print".into(), response: "ERR\r\n".into() }],
                input_rules: vec![],
            },
        ],
    }
}

fn service() -> Server {
    let mut state = PortState::spawn(&scale()).ok().unwrap();
    state.attach(Some("/dev/pts/7".to_string()), None);
    let mut ports = PortMap::new();
    ports.insert(state);
    Server { ports }
}

fn request(method: &str, target: &str, body: &[u8]) -> Request {
    let mut head = RequestHead::start(&format!("{} {} HTTP/1.1\r\n", method, target));
    let length = format!("Content-Length: {}\r\n", body.len());
    assert_eq!(head.header(&length), HeaderStep::More);
    assert_eq!(head.header("\r\n"), HeaderStep::End);
    assert_eq!(head.body_len(), Some(body.len()));
    head.finish(body.to_vec())
}

/// What the service replies, with everything that is to be written to the port.
fn ask(server: &mut Server, method: &str, target: &str, body: &[u8]) -> (u16, Vec<u8>, Vec<u8>) {
    let req = request(method, target, body);
    let payload = serde_json::from_slice::<serde_json::Value>(&req.body)
        .ok()
        .and_then(|v| v.get("scenario").and_then(|s| s.as_str()).map(String::from));
    match server.handle(&req, payload) {
        Outcome::Reply(response) => (response.status, response.body, Vec::new()),
        Outcome::Write { trigger, bytes, .. } => {
            let sent = bytes.clone();
            let response = respond_fired(&trigger, finish_trigger(bytes, Ok(())));
            (response.status, response.body, sent)
        }
    }
}

/// Feeds bytes to the port and returns what it answers.
fn feed(server: &mut Server, chunk: &[u8]) -> Vec<u8> {
    let state = server.ports.get_mut("scale-1").unwrap();
    let spec = state.framing().clone();
    let mut buf = Vec::new();
    let mut sent = Vec::new();
    if let ReaderStep::Frames(frames) =
        state.reader_step(&spec, &mut buf, ReadEvent::Data(chunk.to_vec()))
    {
        for frame in frames {
            let outcome = state.answer_frame(&frame);
            if let Some(bytes) = &outcome.1 {
                sent.extend_from_slice(bytes);
            }
            let rule = recorded_rule(finish_line(outcome, Ok(())));
            state.record_frame(frame, rule);
        }
    }
    sent
}

#[test]
fn lists_configured_ports() {
    let mut svc = service();
    let (status, body, _) = ask(&mut svc, "GET", "/ports", &[]);
    assert_eq!(status, 200);
    let body = String::from_utf8(body).unwrap();
    assert!(body.contains("\"name\":\"scale-1\""), "{}", body);
    assert!(body.contains("\"active_scenario\":\"idle\""), "{}", body);
    assert_eq!(
        body,
        "[{\"name\":\"scale-1\",\"pty_path\":\"/dev/pts/7\",\"active_scenario\":\"idle\",\
         \"scenarios\":[\"idle\",\"error\"]}]"
    );
}

#[test]
fn trigger_writes_bytes_to_slave() {
    let mut svc = service();
    let (status, body, sent) = ask(&mut svc, "POST", "/ports/scale-1/triggers/print", &[]);
    assert_eq!(status, 200);
    assert_eq!(sent, b"S S  15.00 kg\r\n");
    assert_eq!(
        String::from_utf8(body).unwrap(),
        "{\"ok\":true,\"trigger\":\"print\",\"bytes\":15,\"frame\":\"S S  15.00 kg\\r\\n\"}"
    );
}

#[test]
fn scenario_switch_changes_trigger_payload() {
    let mut svc = service();
    let (status, body, _) =
        ask(&mut svc, "POST", "/ports/scale-1/scenario", br#"{"scenario":"error"}"#);
    assert_eq!(status, 200);
    assert_eq!(body, b"{\"ok\":true,\"active_scenario\":\"error\"}");
    let (_, _, sent) = ask(&mut svc, "POST", "/ports/scale-1/triggers/print", &[]);
    assert_eq!(sent, b"ERR\r\n");
}

#[test]
fn input_rule_exact_fires_response() {
    let mut svc = service();
    assert_eq!(feed(&mut svc, b"Q\r\n"), b"S S  12.50 kg\r\n");
}

#[test]
fn input_rule_regex_fires_response() {
    let mut svc = service();
    assert_eq!(feed(&mut svc, b"GET status\r\n"), b"OK\r\n");
}

#[test]
fn capture_events_record_matched_rule() {
    let mut svc = service();
    feed(&mut svc, b"Q\r\n");
    let (status, body, _) = ask(&mut svc, "GET", "/ports/scale-1/capture/events?since=0", &[]);
    assert_eq!(status, 200);
    let body = String::from_utf8(body).unwrap();
    assert!(body.contains("\"matched_rule\":\"idle:0\""), "{}", body);
    assert!(body.contains("\"data_hex\":\"510d0a\""), "{}", body);
}

#[test]
fn unknown_endpoints_return_404() {
    let mut svc = service();
    assert_eq!(ask(&mut svc, "GET", "/nope", &[]).0, 404);
    assert_eq!(ask(&mut svc, "GET", "/ports/missing", &[]).0, 404);
    let (status, body, sent) = ask(&mut svc, "POST", "/ports/scale-1/triggers/ghost", &[]);
    assert_eq!(status, 404);
    assert_eq!(body, b"{\"error\":\"unknown trigger: ghost\"}");
    assert!(sent.is_empty());
}

#[test]
fn raw_capture_returns_received_bytes() {
    let mut svc = service();
    feed(&mut svc, b"hello\n");
    let (status, body, _) = ask(&mut svc, "GET", "/ports/scale-1/capture/raw", &[]);
    assert_eq!(status, 200);
    assert_eq!(body, b"hello\n");
}

#[test]
fn refusals_say_why() {
    let mut svc = service();
    assert_eq!(ask(&mut svc, "PUT", "/ports", &[]).1, b"{\"error\":\"not found\"}");
    assert_eq!(
        ask(&mut svc, "POST", "/ports/missing/scenario", b"x").1,
        b"{\"error\":\"unknown port\"}"
    );
    let (status, body, _) = ask(&mut svc, "POST", "/ports/scale-1/scenario", b"not json");
    assert_eq!(status, 400);
    assert_eq!(body, b"{\"error\":\"expected {\\\"scenario\\\":\\\"name\\\"}\"}");
    let (status, body, _) =
        ask(&mut svc, "POST", "/ports/scale-1/scenario", br#"{"scenario":"gh\"ost"}"#);
    assert_eq!(status, 404);
    assert_eq!(body, b"{\"error\":\"unknown scenario: gh\\\"ost\"}");
    // nothing has changed
    assert_eq!(svc.ports.get("scale-1").unwrap().active().name, "idle");
    let failed = respond_fired("print", finish_trigger(vec![1], Err("gone".to_string())));
    assert_eq!(failed.status, 404);
    assert_eq!(failed.body, b"{\"error\":\"write master: gone\"}");
}

#[test]
fn detail_shows_triggers_and_rules() {
    let mut svc = service();
    let (status, body, _) = ask(&mut svc, "GET", "/ports/scale-1", &[]);
    assert_eq!(status, 200);
    assert_eq!(
        String::from_utf8(body).unwrap(),
        "{\"name\":\"scale-1\",\"pty_path\":\"/dev/pts/7\",\"active_scenario\":\"idle\",\
         \"scenarios\":[\"idle\",\"error\"],\"triggers\":[\"print\"],\"input_rule_count\":2}"
    );
}

#[test]
fn cleared_buffers_read_empty() {
    let mut svc = service();
    feed(&mut svc, b"hello\nQ\r\n");
    assert_eq!(ask(&mut svc, "DELETE", "/ports/scale-1/capture/raw", &[]).1, b"{\"ok\":true}");
    assert_eq!(ask(&mut svc, "GET", "/ports/scale-1/capture/raw", &[]).1, b"");
    let events = ask(&mut svc, "GET", "/ports/scale-1/capture/events?since=1", &[]).1;
    let events = String::from_utf8(events).unwrap();
    assert!(events.starts_with("[{\"id\":2,\"ts_ms\":"), "{}", events);
    assert_eq!(ask(&mut svc, "DELETE", "/ports/scale-1/capture/events", &[]).0, 200);
    assert_eq!(ask(&mut svc, "GET", "/ports/scale-1/capture/events", &[]).1, b"[]");
}

#[test]
fn two_events_are_listed_with_a_comma() {
    let mut svc = service();
    feed(&mut svc, b"a\nb\n");
    let body = ask(&mut svc, "GET", "/ports/scale-1/capture/events?since=x", &[]).1;
    let value: serde_json::Value = serde_json::from_slice(&body).unwrap();
    let list = value.as_array().unwrap();
    assert_eq!(list.len(), 2);
    assert_eq!(list[0].get("data_hex").unwrap().as_str(), Some("610a"));
    assert!(list[1].get("matched_rule").unwrap().is_null());
}

#[test]
fn frames_that_are_no_text_are_shown_lossily() {
    let shown = respond_fired("t", Ok(vec![b'a', 0xff]));
    assert_eq!(
        String::from_utf8(shown.body).unwrap(),
        "{\"ok\":true,\"trigger\":\"t\",\"bytes\":2,\"frame\":\"a\u{fffd}\"}"
    );
}

#[test]
fn replies_have_their_exact_bytes() {
    let response = Response {
        status: 200,
        reason: "OK".to_string(),
        content_type: "application/json".to_string(),
        body: b"[]".to_vec(),
    };
    assert_eq!(
        response.to_bytes(),
        b"HTTP/1.1 200 OK\r\nContent-Type: application/json\r\nContent-Length: 2\r\n\
          Connection: close\r\n\r\n[]"
    );
    let mut svc = service();
    feed(&mut svc, &[0xff, b'\n']);
    match svc.handle(&request("GET", "/ports/scale-1/capture/raw", &[]), None) {
        Outcome::Reply(r) => {
            assert_eq!(r.content_type, "application/octet-stream");
            assert!(r.to_bytes().ends_with(&[b'\n', b'\r', b'\n', 0xff, b'\n']));
        }
        other => panic!("{:?}", other),
    }
}

#[test]
fn paths_are_routed() {
    assert!(matches!(route(&request("GET", "/ports", &[])), Route::ListPorts));
    assert!(matches!(route(&request("GET", "//ports", &[])), Route::ListPorts));
    assert!(matches!(route(&request("GET", "/ports/", &[])), Route::Port(n, Action::Describe) if n.is_empty()));
    assert!(matches!(route(&request("POST", "/ports", &[])), Route::NotFound));
    assert!(matches!(route(&request("GET", "/", &[])), Route::NotFound));
    assert!(matches!(route(&request("GET", "/ports/p/scenario", &[])), Route::NotFound));
    assert!(matches!(
        route(&request("GET", "/ports/p/capture/events?since=42&x", &[])),
        Route::Port(_, Action::ReadEvents(42))
    ));
    assert!(matches!(
        route(&request("GET", "/ports/p/capture/events?since=-1", &[])),
        Route::Port(_, Action::ReadEvents(0))
    ));
    assert!(matches!(
        route(&request("POST", "/ports/p/triggers/a%20b", &[])),
        Route::Port(p, Action::FireTrigger(t)) if p == "p" && t == "a%20b"
    ));
    assert!(matches!(route(&request("POST", "/ports/p/triggers/a/b", &[])), Route::NotFound));
}

#[test]
fn queries_are_split_and_decoded() {
    let (path, query) = split_query("/p?a=1&&b=%41+%2b&c&a=2&=v");
    assert_eq!(path, "/p");
    assert_eq!(query.len(), 4);
    assert_eq!(query.get("a").unwrap(), "2");
    assert_eq!(query.get("b").unwrap(), "A +");
    assert_eq!(query.get("c").unwrap(), "");
    assert_eq!(query.get("").unwrap(), "v");
    let (path, query) = split_query("/p");
    assert_eq!(path, "/p");
    assert_eq!(query.len(), 0);
}

#[test]
fn percent_escapes_decode() {
    assert_eq!(url_decode("a%20b+c"), "a b c");
    assert_eq!(url_decode("%c3%A9"), "é");
    assert_eq!(url_decode("100%"), "100%");
    assert_eq!(url_decode("%zz"), "%zz");
    assert_eq!(url_decode("%4"), "%4");
    assert_eq!(url_decode("%41"), "A");
    assert_eq!(url_decode("%+4"), "\u{4}");
    assert_eq!(url_decode("%4+"), "%4 ");
    assert_eq!(url_decode("ok%ff"), "");
}

#[test]
fn headers_are_matched_in_any_case() {
    assert_eq!(strip_header("CONTENT-Length: 5\r\n", "content-length:"), Some(" 5\r\n"));
    assert_eq!(strip_header("Host: x\r\n", "content-length:"), None);
    assert_eq!(strip_header("short", "content-length:"), None);
}

#[test]
fn header_lines_with_a_character_across_the_prefix_are_taken() {
    let line = "aaaaaaaaaaaaaa\u{e9}";
    assert_eq!(strip_header(line, "content-length:"), None);
    assert_eq!(strip_header("\u{c9}t\u{e9}: 1", "\u{c9}T\u{e9}:"), Some(" 1"));
    let mut head = RequestHead::start("GET / HTTP/1.1\r\n");
    assert_eq!(head.header(line), HeaderStep::More);
    assert_eq!(head.header("\r\n"), HeaderStep::End);
    let mut head = RequestHead::start("GET / HTTP/1.1\r\n");
    let long = format!("{}{}", line, "x".repeat(MAX_HEADER_BYTES));
    assert_eq!(head.header(&long), HeaderStep::TooLong);
}

#[test]
fn long_heads_and_bodies_are_given_up() {
    let mut head = RequestHead::start("GET / HTTP/1.1\r\n");
    let filler = "x".repeat(MAX_HEADER_BYTES - 16);
    assert_eq!(head.header(&filler), HeaderStep::More);
    assert_eq!(head.header("\n"), HeaderStep::TooLong);

    let mut head = RequestHead::start("POST / HTTP/1.1\r\n");
    assert_eq!(head.header(&format!("content-length:{}\n", MAX_BODY_BYTES)), HeaderStep::More);
    assert_eq!(head.body_len(), Some(MAX_BODY_BYTES));
    assert_eq!(head.header(&format!("content-length:{}\n", MAX_BODY_BYTES + 1)), HeaderStep::More);
    assert_eq!(head.body_len(), None);
    assert_eq!(head.header("content-length: many\n"), HeaderStep::More);
    assert_eq!(head.body_len(), Some(0));
    assert_eq!(head.header("\n"), HeaderStep::End);
}

#[test]
fn odd_request_lines_are_taken() {
    let request = RequestHead::start("\r\n").finish(Vec::new());
    assert_eq!((request.method.as_str(), request.path.as_str()), ("", ""));
    let request = RequestHead::start("  GET\t/a?b=c").finish(vec![1]);
    assert_eq!((request.method.as_str(), request.path.as_str()), ("GET", "/a"));
    assert_eq!(request.query.get("b").unwrap(), "c");
    assert_eq!(request.body, vec![1]);
}

#[test]
fn json_text_is_escaped() {
    assert_eq!(json_escape("a\"b\\c\n\r\t\u{1}\u{1f}é"), "a\\\"b\\\\c\\n\\r\\t\\u0001\\u001fé");
    let value: serde_json::Value =
        serde_json::from_slice(format!("\"{}\"", json_escape("\u{0}x\"\\\n")).as_bytes()).unwrap();
    assert_eq!(value.as_str(), Some("\u{0}x\"\\\n"));
}

#[test]
fn hex_is_lower_case_and_read_back() {
    assert_eq!(hex_encode(&[0x00, 0x0f, 0xA5, 0xff]), "000fa5ff");
    let data = [0u8, 1, 0x9a, 0xff];
    assert_eq!(serial_mock_service::bytes::decode_hex(&hex_encode(&data)).unwrap(), data);
}

#[test]
fn requests_keep_to_their_port() {
    let mut svc = service();
    let mut other = scale();
    other.name = "scale-2".to_string();
    svc.ports.insert(PortState::spawn(&other).ok().unwrap());
    ask(&mut svc, "POST", "/ports/scale-2/scenario", br#"{"scenario":"error"}"#);
    assert_eq!(svc.ports.get("scale-1").unwrap().active().name, "idle");
    assert_eq!(svc.ports.get("scale-2").unwrap().active().name, "error");
    assert_eq!(svc.ports.names(), vec!["scale-1".to_string(), "scale-2".to_string()]);
}

#[test]
fn completion_reads_the_replies_of_the_service() {
    let mut svc = service();
    let addr = String::new;
    let (status, body, _) = ask(&mut svc, "GET", "/ports", &[]);
    let kind = CompleteKind::Ports { addr: addr() };
    assert_eq!(complete_names(&kind, &Ok((status, body))), vec!["scale-1"]);
    let (status, body, _) = ask(&mut svc, "GET", "/ports/scale-1", &[]);
    let kind = CompleteKind::Scenarios { port: "scale-1".into(), addr: addr() };
    assert_eq!(complete_names(&kind, &Ok((status, body.clone()))), vec!["idle", "error"]);
    let kind = CompleteKind::Triggers { port: "scale-1".into(), addr: addr() };
    assert_eq!(complete_names(&kind, &Ok((status, body))), vec!["print"]);
}
