use serial_mock_service::cli::{
    cmd_capture, cmd_capture_events, cmd_capture_raw, cmd_ports, cmd_scenario, cmd_trigger,
    complete_call, complete_names, escape, exit_code, offered_names, parse_head, parse_response,
    port_names, print_body, string_array, CaptureKind, Cmd, CompleteKind, DEFAULT_ADDR,
};
use serial_mock_service::http::{HeaderStep, RequestHead, Response};

fn addr() -> String {
    DEFAULT_ADDR.to_string()
}

#[test]
fn commands_become_calls() {
    assert_eq!(DEFAULT_ADDR, "127.0.0.1:5000");
    let plan = cmd_ports(None);
    let call = plan.main.unwrap();
    assert_eq!((call.method.as_str(), call.path.as_str()), ("GET", "/ports"));
    assert!(call.body.is_empty() && plan.clear.is_none() && !plan.verbatim);
    assert_eq!(cmd_ports(Some("scale-1")).main.unwrap().path, "/ports/scale-1");

    let call = cmd_scenario("scale-1", "a\"b\\c").main.unwrap();
    assert_eq!((call.method.as_str(), call.path.as_str()), ("POST", "/ports/scale-1/scenario"));
    assert_eq!(call.body, b"{\"scenario\":\"a\\\"b\\\\c\"}");

    let call = cmd_trigger("scale-1", "print").main.unwrap();
    assert_eq!(
        (call.method.as_str(), call.path.as_str()),
        ("POST", "/ports/scale-1/triggers/print")
    );
}

#[test]
fn capture_commands_read_and_clear() {
    let plan = cmd_capture_raw("p", false, false);
    assert_eq!(plan.main.unwrap().path, "/ports/p/capture/raw");
    assert!(plan.verbatim && plan.clear.is_none());

    let plan = cmd_capture_raw("p", false, true);
    assert!(plan.main.is_none());
    let clear = plan.clear.unwrap();
    assert_eq!((clear.method.as_str(), clear.path.as_str()), ("DELETE", "/ports/p/capture/raw"));

    let plan = cmd_capture_events("p", 17, true, false);
    assert_eq!(plan.main.unwrap().path, "/ports/p/capture/events?since=17");
    assert_eq!(plan.clear.unwrap().path, "/ports/p/capture/events");
    assert!(!plan.verbatim);

    let kind = CaptureKind::Raw { port: "q".into(), clear: true, clear_only: false, addr: addr() };
    let plan = cmd_capture(&kind);
    assert!(plan.verbatim && plan.main.is_some() && plan.clear.is_some());
    let kind = CaptureKind::Events {
        port: "q".into(),
        since: 3,
        clear: false,
        clear_only: true,
        addr: addr(),
    };
    let plan = cmd_capture(&kind);
    assert!(plan.main.is_none());
    assert_eq!(plan.clear.unwrap().path, "/ports/q/capture/events");
}

#[test]
fn each_command_has_its_plan() {
    let cmd = Cmd::Ports { addr: "h:1".into(), port: Some("p".into()) };
    assert_eq!(cmd.addr(), "h:1");
    assert_eq!(cmd.plan().main.unwrap().path, "/ports/p");
    let cmd = Cmd::Scenario { port: "p".into(), scenario: "s".into(), addr: "h:2".into() };
    assert_eq!(cmd.addr(), "h:2");
    assert_eq!(cmd.plan().main.unwrap().body, b"{\"scenario\":\"s\"}");
    let cmd = Cmd::Trigger { port: "p".into(), trigger: "t".into(), addr: "h:3".into() };
    assert_eq!(cmd.addr(), "h:3");
    assert_eq!(cmd.plan().main.unwrap().path, "/ports/p/triggers/t");
    let kind = CaptureKind::Raw {
        port: "p".into(),
        clear: false,
        clear_only: true,
        addr: "h:4".into(),
    };
    let cmd = Cmd::Capture { kind };
    assert_eq!(cmd.addr(), "h:4");
    assert!(cmd.plan().main.is_none() && cmd.plan().clear.is_some());
}

#[test]
fn request_heads_have_their_exact_bytes() {
    let call = cmd_scenario("p", "s").main.unwrap();
    assert_eq!(
        call.head("127.0.0.1:5000"),
        b"POST /ports/p/scenario HTTP/1.1\r\nHost: 127.0.0.1:5000\r\nContent-Length: 16\r\n\
          Connection: close\r\n\r\n"
    );
}

#[test]
fn requests_are_read_back_by_the_service() {
    let call = cmd_capture_events("p", 9, false, false).main.unwrap();
    let text = String::from_utf8(call.head("localhost:1")).unwrap();
    let mut lines = text.split_inclusive('\n');
    let mut head = RequestHead::start(lines.next().unwrap());
    let mut last = HeaderStep::More;
    for line in lines {
        assert_eq!(last, HeaderStep::More);
        last = head.header(line);
    }
    assert_eq!(last, HeaderStep::End);
    assert_eq!(head.body_len(), Some(0));
    let request = head.finish(Vec::new());
    assert_eq!(request.method, "GET");
    assert_eq!(request.path, "/ports/p/capture/events");
    assert_eq!(request.query.get("since").unwrap(), "9");
}

#[test]
fn replies_are_read_back_by_the_client() {
    let response = Response {
        status: 404,
        reason: "Not Found".to_string(),
        content_type: "application/json".to_string(),
        body: b"a\r\n\r\nb".to_vec(),
    };
    assert_eq!(parse_response(&response.to_bytes()), Ok((404, b"a\r\n\r\nb".to_vec())));
}

#[test]
fn malformed_replies_are_told() {
    let err = |bytes: &[u8]| parse_response(bytes).unwrap_err();
    assert_eq!(err(b"HTTP/1.1 200 OK\r\n"), "malformed response: no header terminator");
    assert_eq!(err(b"\r\n\r\nbody"), "empty response");
    assert_eq!(err(b"HTTP/1.1\r\n\r\n"), "malformed status line");
    assert_eq!(
        err(b"HTTP/1.1 abc\r\n\r\n"),
        "status parse: invalid digit found in string"
    );
    assert_eq!(
        err(b"HTTP/1.1 70000\r\n\r\n"),
        "status parse: number too large to fit in target type"
    );
    assert!(err(b"HTTP/1.1 \xff\r\n\r\n").starts_with("non-utf8 headers: "));
    assert_eq!(parse_head("HTTP/1.1 +201 Created\r\nx"), Ok(201));
    assert_eq!(parse_head("a\nb c"), Err("malformed status line".to_string()));
    assert_eq!(parse_response(b"x 7\r\n\r\n\r\n\r\n"), Ok((7, b"\r\n\r\n".to_vec())));
}

#[test]
fn bodies_are_shown_by_status() {
    let shown = print_body(200, b"[]");
    assert!(!shown.to_stderr);
    assert_eq!(shown.bytes, b"[]\n");
    assert_eq!(print_body(399, b"x\n").bytes, b"x\n");
    assert_eq!(print_body(200, b"").bytes, b"\n");
    let shown = print_body(404, b"{}");
    assert!(shown.to_stderr);
    assert_eq!(shown.bytes, b"HTTP 404 {}\n");
}

#[test]
fn statuses_decide_the_outcome() {
    let plan = cmd_ports(None);
    let (shown, result) = plan.on_main(200, b"ok");
    assert_eq!(shown.bytes, b"ok\n");
    assert_eq!(result, Ok(()));
    let (shown, result) = plan.on_main(500, b"no");
    assert!(shown.to_stderr);
    assert_eq!(result, Err("HTTP 500".to_string()));

    let plan = cmd_capture_raw("p", true, false);
    let (shown, result) = plan.on_main(200, b"\x00\xff");
    assert_eq!(shown.bytes, b"\x00\xff");
    assert!(!shown.to_stderr);
    assert_eq!(result, Ok(()));
    assert_eq!(plan.on_main(404, b"x").0.bytes, b"HTTP 404 x\n");
    assert_eq!(plan.on_clear(200), Ok(()));
    assert_eq!(plan.on_clear(404), Err("clear: HTTP 404".to_string()));

    assert_eq!(exit_code(&Ok(())), 0);
    assert_eq!(exit_code(&Err("HTTP 500".to_string())), 1);
}

#[test]
fn a_failed_read_clears_nothing() {
    let plan = cmd_capture_raw("p", true, false);
    let failed: Result<(), String> = Err("HTTP 404".to_string());
    assert!(plan.after_main(&failed).is_none());
    let result = plan.finish(failed.clone(), Ok(()));
    assert_eq!(result, failed);
    assert_eq!(exit_code(&result), 1);

    assert_eq!(plan.after_main(&Ok(())).unwrap().method, "DELETE");
    let result = plan.finish(Ok(()), Err("clear: HTTP 500".to_string()));
    assert_eq!(exit_code(&result), 1);
    assert_eq!(exit_code(&plan.finish(Ok(()), Ok(()))), 0);

    let plan = cmd_capture_raw("p", false, false);
    assert!(plan.after_main(&Ok(())).is_none());
    assert_eq!(exit_code(&plan.finish(Ok(()), Ok(()))), 0);
}

#[test]
fn quotes_and_backslashes_are_escaped() {
    assert_eq!(escape("plain"), "plain");
    assert_eq!(escape("\\\"\n"), "\\\\\\\"\n");
}

#[test]
fn names_are_completed_from_replies() {
    let ports = CompleteKind::Ports { addr: addr() };
    let scenarios = CompleteKind::Scenarios { port: "p".into(), addr: addr() };
    let triggers = CompleteKind::Triggers { port: "p".into(), addr: addr() };
    assert_eq!(complete_call(&ports).path, "/ports");
    assert_eq!(complete_call(&scenarios).path, "/ports/p");
    assert_eq!(complete_call(&triggers).method, "GET");

    let list = b"[{\"name\":\"a\"},{\"name\":1},{},3,{\"name\":\"b\"}]".to_vec();
    assert_eq!(complete_names(&ports, &Ok((200, list.clone()))), vec!["a", "b"]);
    assert!(complete_names(&ports, &Ok((404, list))).is_empty());
    assert!(complete_names(&ports, &Ok((200, b"not json".to_vec()))).is_empty());
    assert!(complete_names(&ports, &Ok((200, b"{}".to_vec()))).is_empty());
    assert!(complete_names(&ports, &Err("connect".to_string())).is_empty());

    let detail = b"{\"scenarios\":[\"idle\",2,\"error\"],\"triggers\":\"x\"}".to_vec();
    assert_eq!(complete_names(&scenarios, &Ok((200, detail.clone()))), vec!["idle", "error"]);
    assert!(complete_names(&triggers, &Ok((200, detail))).is_empty());
}

#[test]
fn names_are_found_in_values() {
    let list: serde_json::Value = serde_json::from_slice(b"[{\"name\":\"a\"}]").unwrap();
    assert_eq!(port_names(&list), vec!["a"]);
    assert_eq!(offered_names(&CompleteKind::Ports { addr: addr() }, &list), vec!["a"]);
    assert!(string_array(&list, "name").is_empty());
    let object: serde_json::Value = serde_json::from_slice(b"{\"f\":[\"x\",null,\"y\"]}").unwrap();
    assert_eq!(string_array(&object, "f"), vec!["x", "y"]);
    assert!(string_array(&object, "g").is_empty());
    assert!(port_names(&object).is_empty());
}
