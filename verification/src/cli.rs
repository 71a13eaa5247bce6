//! The client: what a command asks of a running service, and what it makes of
//! the reply.
//!
//! The connection itself is elsewhere. A command is planned as calls; what was
//! read from the connection is handed back, and what is to be printed is
//! returned.
use crate::framing;
use crate::http;
use crate::json;
use crate::outside;
use crate::text;
use vstd::prelude::*;
use vstd::utf8::*;

verus! {

/// Where the service is looked for when no address is given.
pub const DEFAULT_ADDR: &'static str = "127.0.0.1:5000";

/// Which names to complete.
#[derive(Debug)]
pub enum CompleteKind {
    /// All port names.
    Ports { addr: String },
    /// The scenario names of a port.
    Scenarios { port: String, addr: String },
    /// The trigger names of the active scenario of a port.
    Triggers { port: String, addr: String },
}

/// Which capture buffer to read.
#[derive(Debug)]
pub enum CaptureKind {
    /// The raw captured bytes of a port.
    Raw {
        port: String,
        /// Clear the buffer after reading.
        clear: bool,
        /// Clear without reading.
        clear_only: bool,
        addr: String,
    },
    /// The captured events of a port.
    Events {
        port: String,
        /// Only events with a greater id.
        since: u64,
        clear: bool,
        clear_only: bool,
        addr: String,
    },
}

// ---------------------------------------------------------------------------
// Calls
// ---------------------------------------------------------------------------

/// A request to the service.
#[derive(Debug)]
pub struct Call {
    pub method: String,
    pub path: String,
    pub body: Vec<u8>,
}

/// What a `Call` holds.
pub struct CallView {
    pub method: Seq<char>,
    pub path: Seq<char>,
    pub body: Seq<u8>,
}

impl View for Call {
    type V = CallView;

    open spec fn view(&self) -> CallView {
        CallView { method: self.method@, path: self.path@, body: self.body@ }
    }
}

impl CallView {
    /// The request line.
    pub open spec fn request_line(self) -> Seq<char> {
        self.method + " "@ + self.path + " HTTP/1.1\r\n"@
    }

    /// The head of the request, with the empty line that ends it.
    pub open spec fn head(self, host: Seq<char>) -> Seq<char> {
        self.method + " "@ + self.path + " HTTP/1.1\r\nHost: "@ + host + "\r\nContent-Length: "@
            + text::decimal(self.body.len()) + "\r\nConnection: close\r\n\r\n"@
    }
}

impl Call {
    /// The head of the request, which the body follows.
    pub fn head(&self, host: &str) -> (r: Vec<u8>)
        ensures
            r@ == encode_utf8(self@.head(host@)),
    {
        let mut out = self.method.clone();
        out.append(" ");
        out.append(self.path.as_str());
        out.append(" HTTP/1.1\r\nHost: ");
        out.append(host);
        out.append("\r\nContent-Length: ");
        text::push_decimal(&mut out, self.body.len() as u64);
        out.append("\r\nConnection: close\r\n\r\n");
        out.as_str().as_bytes_vec()
    }
}

/// A character as it is written in a scenario body.
pub open spec fn body_char(c: char) -> Seq<char> {
    if c == '"' || c == '\\' {
        seq!['\\', c]
    } else {
        seq![c]
    }
}

/// A text as it is written in a scenario body: a backslash before every quote
/// and every backslash.
pub open spec fn body_text(s: Seq<char>) -> Seq<char>
    decreases s.len(),
{
    if s.len() == 0 {
        seq![]
    } else {
        body_text(s.drop_last()) + body_char(s.last())
    }
}

/// Puts a backslash before every quote and every backslash.
pub fn escape(s: &str) -> (r: String)
    ensures
        r@ == body_text(s@),
{
    let chars = text::chars_of(s);
    let mut out = String::new();
    let mut i: usize = 0;
    while i < chars.len()
        invariant
            i <= chars.len(),
            chars@ == s@,
            out@ == body_text(s@.take(i as int)),
        decreases chars.len() - i,
    {
        let c = chars[i];
        let ghost before = out@;
        assert(s@.take(i + 1).drop_last() =~= s@.take(i as int));
        if c == '"' || c == '\\' {
            out.push('\\');
        }
        out.push(c);
        assert(out@ =~= before + body_char(c));
        i = i + 1;
    }
    assert(s@.take(i as int) =~= s@);
    out
}

/// The path of a port, and of what belongs to it.
pub open spec fn port_path(port: Seq<char>, rest: Seq<char>) -> Seq<char> {
    "/ports/"@ + port + rest
}

fn path_of(port: &str, rest: &str) -> (r: String)
    ensures
        r@ == port_path(port@, rest@),
{
    let mut out = "/ports/".to_owned();
    out.append(port);
    out.append(rest);
    out
}

/// A call without a body.
pub open spec fn plain_call(method: Seq<char>, path: Seq<char>) -> CallView {
    CallView { method, path, body: seq![] }
}

fn make_call(method: &str, path: String) -> (r: Call)
    ensures
        r@ == plain_call(method@, path@),
{
    Call { method: method.to_owned(), path, body: Vec::new() }
}

// ---------------------------------------------------------------------------
// Commands
// ---------------------------------------------------------------------------

/// What a command does: a call of which the reply is shown, then a call that
/// clears a buffer. Each of them may be missing.
#[derive(Debug)]
pub struct Plan {
    pub main: Option<Call>,
    /// Whether the body of a reply goes out as it is, without a final newline.
    pub verbatim: bool,
    pub clear: Option<Call>,
}

/// What a `Plan` holds.
pub struct PlanView {
    pub main: Option<CallView>,
    pub verbatim: bool,
    pub clear: Option<CallView>,
}

/// What an optional call holds.
pub open spec fn call_option(call: Option<Call>) -> Option<CallView> {
    match call {
        Some(call) => Some(call@),
        None => None,
    }
}

impl View for Plan {
    type V = PlanView;

    open spec fn view(&self) -> PlanView {
        PlanView {
            main: call_option(self.main),
            verbatim: self.verbatim,
            clear: call_option(self.clear),
        }
    }
}

/// The plan of one call.
pub open spec fn single(call: CallView) -> PlanView {
    PlanView { main: Some(call), verbatim: false, clear: None }
}

fn plan_single(call: Call) -> (r: Plan)
    ensures
        r@ == single(call@),
{
    Plan { main: Some(call), verbatim: false, clear: None }
}

/// Lists the ports, or describes one.
pub fn cmd_ports(port: Option<&str>) -> (r: Plan)
    ensures
        r@ == single(
            plain_call(
                "GET"@,
                match port {
                    Some(port) => port_path(port@, seq![]),
                    None => "/ports"@,
                },
            ),
        ),
{
    let path = match port {
        Some(port) => {
            let path = path_of(port, "");
            proof {
                reveal_strlit("");
                assert(""@ =~= seq![]);
            }
            path
        },
        None => "/ports".to_owned(),
    };
    plan_single(make_call("GET", path))
}

/// Switches the scenario of a port.
pub fn cmd_scenario(port: &str, scenario: &str) -> (r: Plan)
    ensures
        r@ == single(
            CallView {
                method: "POST"@,
                path: port_path(port@, "/scenario"@),
                body: encode_utf8("{\"scenario\":\""@ + body_text(scenario@) + "\"}"@),
            },
        ),
{
    let mut body = "{\"scenario\":\"".to_owned();
    body.append(escape(scenario).as_str());
    body.append("\"}");
    plan_single(
        Call {
            method: "POST".to_owned(),
            path: path_of(port, "/scenario"),
            body: body.as_str().as_bytes_vec(),
        },
    )
}

/// Fires a trigger of a port.
pub fn cmd_trigger(port: &str, trigger: &str) -> (r: Plan)
    ensures
        r@ == single(plain_call("POST"@, port_path(port@, "/triggers/"@ + trigger@))),
{
    let mut rest = "/triggers/".to_owned();
    rest.append(trigger);
    plan_single(make_call("POST", path_of(port, rest.as_str())))
}

/// The plan that reads a buffer, unless it is only to be cleared, and clears it,
/// if it is to be cleared.
pub open spec fn capture_plan(
    read: Seq<char>,
    wipe: Seq<char>,
    verbatim: bool,
    clear: bool,
    clear_only: bool,
) -> PlanView {
    PlanView {
        main: if clear_only {
            None
        } else {
            Some(plain_call("GET"@, read))
        },
        verbatim,
        clear: if clear || clear_only {
            Some(plain_call("DELETE"@, wipe))
        } else {
            None
        },
    }
}

fn plan_capture(
    read: String,
    wipe: String,
    verbatim: bool,
    clear: bool,
    clear_only: bool,
) -> (r: Plan)
    ensures
        r@ == capture_plan(read@, wipe@, verbatim, clear, clear_only),
{
    let main = if clear_only {
        None
    } else {
        Some(make_call("GET", read))
    };
    let clear = if clear || clear_only {
        Some(make_call("DELETE", wipe))
    } else {
        None
    };
    Plan { main, verbatim, clear }
}

/// Reads or clears the raw bytes of a port.
pub fn cmd_capture_raw(port: &str, clear: bool, clear_only: bool) -> (r: Plan)
    ensures
        r@ == capture_plan(
            port_path(port@, "/capture/raw"@),
            port_path(port@, "/capture/raw"@),
            true,
            clear,
            clear_only,
        ),
{
    plan_capture(
        path_of(port, "/capture/raw"),
        path_of(port, "/capture/raw"),
        true,
        clear,
        clear_only,
    )
}

/// Reads or clears the events of a port.
pub fn cmd_capture_events(port: &str, since: u64, clear: bool, clear_only: bool) -> (r: Plan)
    ensures
        r@ == capture_plan(
            port_path(port@, "/capture/events?since="@ + text::decimal(since as nat)),
            port_path(port@, "/capture/events"@),
            false,
            clear,
            clear_only,
        ),
{
    let mut rest = "/capture/events?since=".to_owned();
    text::push_decimal(&mut rest, since);
    plan_capture(
        path_of(port, rest.as_str()),
        path_of(port, "/capture/events"),
        false,
        clear,
        clear_only,
    )
}

/// Reads or clears a capture buffer.
pub fn cmd_capture(kind: &CaptureKind) -> (r: Plan)
    ensures
        r@ == kind.planned(),
{
    match kind {
        CaptureKind::Raw { port, clear, clear_only, .. } => cmd_capture_raw(
            port.as_str(),
            *clear,
            *clear_only,
        ),
        CaptureKind::Events { port, since, clear, clear_only, .. } => cmd_capture_events(
            port.as_str(),
            *since,
            *clear,
            *clear_only,
        ),
    }
}

/// A command to a running service.
#[derive(Debug)]
pub enum Cmd {
    /// List ports and their active scenarios, or describe one port.
    Ports { addr: String, port: Option<String> },
    /// Switch the active scenario of a port.
    Scenario { port: String, scenario: String, addr: String },
    /// Fire a named trigger of a port.
    Trigger { port: String, trigger: String, addr: String },
    /// Read or clear a capture buffer.
    Capture { kind: CaptureKind },
}

impl CaptureKind {
    /// The address of the service.
    pub open spec fn address(&self) -> Seq<char> {
        match self {
            CaptureKind::Raw { addr, .. } => addr@,
            CaptureKind::Events { addr, .. } => addr@,
        }
    }

    /// What the command does.
    pub open spec fn planned(&self) -> PlanView {
        match self {
            CaptureKind::Raw { port, clear, clear_only, .. } => capture_plan(
                port_path(port@, "/capture/raw"@),
                port_path(port@, "/capture/raw"@),
                true,
                *clear,
                *clear_only,
            ),
            CaptureKind::Events { port, since, clear, clear_only, .. } => capture_plan(
                port_path(port@, "/capture/events?since="@ + text::decimal(*since as nat)),
                port_path(port@, "/capture/events"@),
                false,
                *clear,
                *clear_only,
            ),
        }
    }
}

impl Cmd {
    /// The address of the service.
    pub open spec fn address(&self) -> Seq<char> {
        match self {
            Cmd::Ports { addr, .. } => addr@,
            Cmd::Scenario { addr, .. } => addr@,
            Cmd::Trigger { addr, .. } => addr@,
            Cmd::Capture { kind } => kind.address(),
        }
    }

    /// What the command does.
    pub open spec fn planned(&self) -> PlanView {
        match self {
            Cmd::Ports { port: None, .. } => single(plain_call("GET"@, "/ports"@)),
            Cmd::Ports { port: Some(port), .. } => single(
                plain_call("GET"@, port_path(port@, seq![])),
            ),
            Cmd::Scenario { port, scenario, .. } => single(
                CallView {
                    method: "POST"@,
                    path: port_path(port@, "/scenario"@),
                    body: encode_utf8("{\"scenario\":\""@ + body_text(scenario@) + "\"}"@),
                },
            ),
            Cmd::Trigger { port, trigger, .. } => single(
                plain_call("POST"@, port_path(port@, "/triggers/"@ + trigger@)),
            ),
            Cmd::Capture { kind } => kind.planned(),
        }
    }

    /// The address of the service.
    pub fn addr(&self) -> (r: &str)
        ensures
            r@ == self.address(),
    {
        match self {
            Cmd::Ports { addr, .. } => addr.as_str(),
            Cmd::Scenario { addr, .. } => addr.as_str(),
            Cmd::Trigger { addr, .. } => addr.as_str(),
            Cmd::Capture { kind: CaptureKind::Raw { addr, .. } } => addr.as_str(),
            Cmd::Capture { kind: CaptureKind::Events { addr, .. } } => addr.as_str(),
        }
    }

    /// What the command does.
    pub fn plan(&self) -> (r: Plan)
        ensures
            r@ == self.planned(),
    {
        match self {
            Cmd::Ports { port: None, .. } => cmd_ports(None),
            Cmd::Ports { port: Some(port), .. } => cmd_ports(Some(port.as_str())),
            Cmd::Scenario { port, scenario, .. } => cmd_scenario(port.as_str(), scenario.as_str()),
            Cmd::Trigger { port, trigger, .. } => cmd_trigger(port.as_str(), trigger.as_str()),
            Cmd::Capture { kind } => cmd_capture(kind),
        }
    }
}

// ---------------------------------------------------------------------------
// Replies
// ---------------------------------------------------------------------------

/// What is printed.
#[derive(Debug)]
pub struct Printed {
    /// Whether it goes to the error stream.
    pub to_stderr: bool,
    pub bytes: Vec<u8>,
}

/// How the body of a reply is shown: after the status, for an error, else as it
/// is, with a newline at the end where it has none.
pub open spec fn shown(status: u16, body: Seq<u8>) -> (bool, Seq<u8>) {
    if status >= 400 {
        (
            true,
            encode_utf8("HTTP "@ + text::decimal(status as nat) + " "@) + body + seq![10u8],
        )
    } else if body.len() > 0 && body.last() == 10 {
        (false, body)
    } else {
        (false, body + seq![10u8])
    }
}

/// Shows the body of a reply.
pub fn print_body(status: u16, body: &[u8]) -> (r: Printed)
    ensures
        (r.to_stderr, r.bytes@) == shown(status, body@),
{
    let mut bytes = vstd::slice::slice_to_vec(body);
    if status >= 400 {
        let mut prefix = "HTTP ".to_owned();
        text::push_decimal(&mut prefix, status as u64);
        prefix.append(" ");
        let mut out = prefix.as_str().as_bytes_vec();
        out.append(&mut bytes);
        out.push(10);
        assert(out@ =~= shown(status, body@).1);
        Printed { to_stderr: true, bytes: out }
    } else {
        if body.len() == 0 || body[body.len() - 1] != 10 {
            bytes.push(10);
        }
        assert(bytes@ =~= shown(status, body@).1);
        Printed { to_stderr: false, bytes }
    }
}

/// What the reply to a command is shown as.
pub open spec fn plan_shown(plan: PlanView, status: u16, body: Seq<u8>) -> (bool, Seq<u8>) {
    if plan.verbatim && status < 400 {
        (false, body)
    } else {
        shown(status, body)
    }
}

/// What a command comes to, by the status of the reply.
pub open spec fn status_result(prefix: Seq<char>, status: u16) -> Result<(), Seq<char>> {
    if status >= 400 {
        Err(prefix + "HTTP "@ + text::decimal(status as nat))
    } else {
        Ok(())
    }
}

fn check_status(prefix: &str, status: u16) -> (r: Result<(), String>)
    ensures
        match r {
            Ok(()) => status_result(prefix@, status) is Ok,
            Err(e) => status_result(prefix@, status) == Err::<(), Seq<char>>(e@),
        },
{
    if status >= 400 {
        let mut e = prefix.to_owned();
        e.append("HTTP ");
        text::push_decimal(&mut e, status as u64);
        Err(e)
    } else {
        Ok(())
    }
}

impl Plan {
    /// What to print of the reply to the main call, and whether that went well.
    pub fn on_main(&self, status: u16, body: &[u8]) -> (r: (Printed, Result<(), String>))
        ensures
            (r.0.to_stderr, r.0.bytes@) == plan_shown(self@, status, body@),
            match r.1 {
                Ok(()) => status_result(seq![], status) is Ok,
                Err(e) => status_result(seq![], status) == Err::<(), Seq<char>>(e@),
            },
    {
        proof {
            reveal_strlit("");
            assert(""@ =~= seq![]);
        }
        let printed = if self.verbatim && status < 400 {
            Printed { to_stderr: false, bytes: vstd::slice::slice_to_vec(body) }
        } else {
            print_body(status, body)
        };
        (printed, check_status("", status))
    }

    /// What the reply to the clearing call comes to.
    pub fn on_clear(&self, status: u16) -> (r: Result<(), String>)
        ensures
            match r {
                Ok(()) => status_result("clear: "@, status) is Ok,
                Err(e) => status_result("clear: "@, status) == Err::<(), Seq<char>>(e@),
            },
    {
        check_status("clear: ", status)
    }

    /// The call to make after the main one, given what came of that: the clearing
    /// call, if there is one. After an error nothing is cleared.
    pub fn after_main(&self, result: &Result<(), String>) -> (r: Option<&Call>)
        ensures
            match r {
                Some(c) => result is Ok && self@.clear == Some(c@),
                None => result is Err || self@.clear is None,
            },
    {
        match (result, &self.clear) {
            (Ok(()), Some(call)) => Some(call),
            _ => None,
        }
    }

    /// What the whole command comes to, given what came of the main call and of
    /// the clearing one. A call that was not made counts as one that went well.
    pub fn finish(&self, main: Result<(), String>, clear: Result<(), String>) -> (r: Result<
        (),
        String,
    >)
        ensures
            result_of(r) == command_result(self@, result_of(main), result_of(clear)),
    {
        match (&main, &self.clear) {
            (Ok(()), Some(_)) => clear,
            _ => main,
        }
    }
}

/// What a result holds.
pub open spec fn result_of(result: Result<(), String>) -> Result<(), Seq<char>> {
    match result {
        Ok(()) => Ok(()),
        Err(e) => Err(e@),
    }
}

/// The call that a command makes after the main one.
pub open spec fn next_call(plan: PlanView, main: Result<(), Seq<char>>) -> Option<CallView> {
    if main is Ok {
        plan.clear
    } else {
        None
    }
}

/// What a command comes to: the first error, if there is one.
pub open spec fn command_result(
    plan: PlanView,
    main: Result<(), Seq<char>>,
    clear: Result<(), Seq<char>>,
) -> Result<(), Seq<char>> {
    if next_call(plan, main) is Some {
        clear
    } else {
        main
    }
}

/// The exit code that tells what a command came to.
pub open spec fn code_of(result: Result<(), Seq<char>>) -> i32 {
    if result is Ok {
        0
    } else {
        1
    }
}

/// The exit code of a command.
pub fn exit_code(result: &Result<(), String>) -> (r: i32)
    ensures
        r == code_of(result_of(*result)),
{
    match result {
        Ok(()) => 0,
        Err(_) => 1,
    }
}

/// The line feeds and carriage returns that end the head of a reply.
pub open spec fn head_end() -> Seq<u8> {
    seq![13u8, 10u8, 13u8, 10u8]
}

/// The text before the first line feed.
pub open spec fn first_line(s: Seq<char>) -> Seq<char> {
    s.take(text::run_len(s, text::other_than('\n')) as int)
}

/// The status that the head of a reply tells, or the error message.
pub open spec fn head_status(head: Seq<char>) -> Result<u16, Seq<char>> {
    if head.len() == 0 {
        Err("empty response"@)
    } else if text::words(first_line(head)).len() < 2 {
        Err("malformed status line"@)
    } else {
        let word = text::words(first_line(head))[1];
        match text::number_of(word) {
            Some(n) if n <= u16::MAX => Ok(n as u16),
            _ => Err("status parse: "@ + outside::u16_error(word)),
        }
    }
}

/// The status and the body of a reply, or the error message.
pub open spec fn response_parsed(buf: Seq<u8>) -> Result<(u16, Seq<u8>), Seq<char>> {
    match framing::find(buf, head_end()) {
        None => Err("malformed response: no header terminator"@),
        Some(k) => {
            let head = buf.take(k);
            if !valid_utf8(head) {
                Err("non-utf8 headers: "@ + outside::utf8_error(head))
            } else {
                match head_status(decode_utf8(head)) {
                    Ok(status) => Ok((status, buf.skip(k + 4))),
                    Err(e) => Err(e),
                }
            }
        },
    }
}

fn with_cause(what: &str, cause: &str) -> (r: String)
    ensures
        r@ == what@ + cause@,
{
    let mut e = what.to_owned();
    e.append(cause);
    e
}

/// Reads the status off the head of a reply.
pub fn parse_head(head: &str) -> (r: Result<u16, String>)
    ensures
        match r {
            Ok(status) => head_status(head@) == Ok::<u16, Seq<char>>(status),
            Err(e) => head_status(head@) == Err::<u16, Seq<char>>(e@),
        },
{
    let chars = text::chars_of(head);
    if chars.len() == 0 {
        return Err("empty response".to_owned());
    }
    let line = match text::split_text_once(head, '\n') {
        Some((line, _)) => line,
        None => {
            proof {
                text::lemma_run_len(head@, text::other_than('\n'));
                assert(head@.take(head@.len() as int) =~= head@);
            }
            head.to_owned()
        },
    };
    assert(line@ == first_line(head@));
    let words = text::words_of(line.as_str());
    assert(words.len() == text::words(line@).len());
    if words.len() < 2 {
        return Err("malformed status line".to_owned());
    }
    assert(text::texts(words@)[1] == words@[1]@);
    match outside::parse_u16(words[1].as_str()) {
        Ok(status) => Ok(status),
        Err(cause) => Err(with_cause("status parse: ", cause.as_str())),
    }
}

/// Reads a reply: its status and its body.
pub fn parse_response(buf: &[u8]) -> (r: Result<(u16, Vec<u8>), String>)
    ensures
        match r {
            Ok((status, body)) => response_parsed(buf@) == Ok::<(u16, Seq<u8>), Seq<char>>(
                (status, body@),
            ),
            Err(e) => response_parsed(buf@) == Err::<(u16, Seq<u8>), Seq<char>>(e@),
        },
{
    let mut end: Vec<u8> = Vec::new();
    end.push(13);
    end.push(10);
    end.push(13);
    end.push(10);
    assert(end@ =~= head_end());
    let k = match framing::find_subslice(buf, end.as_slice()) {
        Some(k) => k,
        None => return Err("malformed response: no header terminator".to_owned()),
    };
    let head = match outside::text_from_utf8(vstd::slice::slice_to_vec(&buf[0..k])) {
        Ok(head) => head,
        Err(cause) => {
            assert(buf@.subrange(0, k as int) =~= buf@.take(k as int));
            return Err(with_cause("non-utf8 headers: ", cause.as_str()));
        },
    };
    assert(buf@.subrange(0, k as int) =~= buf@.take(k as int));
    match parse_head(head.as_str()) {
        Ok(status) => {
            let body = vstd::slice::slice_to_vec(&buf[k + 4..buf.len()]);
            assert(body@ =~= buf@.skip(k + 4));
            Ok((status, body))
        },
        Err(e) => Err(e),
    }
}

// ---------------------------------------------------------------------------
// Completion
// ---------------------------------------------------------------------------

/// The call that asks for the names to complete.
pub fn complete_call(kind: &CompleteKind) -> (r: Call)
    ensures
        r@ == plain_call(
            "GET"@,
            match kind {
                CompleteKind::Ports { .. } => "/ports"@,
                CompleteKind::Scenarios { port, .. } => port_path(port@, seq![]),
                CompleteKind::Triggers { port, .. } => port_path(port@, seq![]),
            },
        ),
{
    proof {
        reveal_strlit("");
        assert(""@ =~= seq![]);
    }
    let path = match kind {
        CompleteKind::Ports { .. } => "/ports".to_owned(),
        CompleteKind::Scenarios { port, .. } => path_of(port.as_str(), ""),
        CompleteKind::Triggers { port, .. } => path_of(port.as_str(), ""),
    };
    make_call("GET", path)
}

/// The texts among JSON values, in order.
pub open spec fn texts_among(items: Seq<serde_json::Value>) -> Seq<Seq<char>>
    decreases items.len(),
{
    if items.len() == 0 {
        seq![]
    } else {
        match outside::json_text(items.last()) {
            Some(text) => texts_among(items.drop_last()).push(text),
            None => texts_among(items.drop_last()),
        }
    }
}

/// The member `name` of each JSON value that has one.
pub open spec fn name_members(items: Seq<serde_json::Value>) -> Seq<serde_json::Value>
    decreases items.len(),
{
    if items.len() == 0 {
        seq![]
    } else {
        match outside::json_member(items.last(), "name"@) {
            Some(name) => name_members(items.drop_last()).push(name),
            None => name_members(items.drop_last()),
        }
    }
}

/// The names of the ports in a list of ports.
pub open spec fn listed_ports(value: serde_json::Value) -> Seq<Seq<char>> {
    match outside::json_items(value) {
        Some(items) => texts_among(name_members(items)),
        None => seq![],
    }
}

/// The texts in the array that is a member of a value.
pub open spec fn listed_texts(value: serde_json::Value, field: Seq<char>) -> Seq<Seq<char>> {
    match outside::json_member(value, field) {
        Some(member) => match outside::json_items(member) {
            Some(items) => texts_among(items),
            None => seq![],
        },
        None => seq![],
    }
}

/// The names that a reply offers for completion.
pub open spec fn offered(kind: &CompleteKind, value: serde_json::Value) -> Seq<Seq<char>> {
    match kind {
        CompleteKind::Ports { .. } => listed_ports(value),
        CompleteKind::Scenarios { .. } => listed_texts(value, "scenarios"@),
        CompleteKind::Triggers { .. } => listed_texts(value, "triggers"@),
    }
}

/// The names of the ports in a list of ports.
pub fn port_names(value: &serde_json::Value) -> (r: Vec<String>)
    ensures
        text::texts(r@) == listed_ports(*value),
{
    let mut out: Vec<String> = Vec::new();
    assert(text::texts(out@) =~= seq![]);
    if let Some(items) = value.as_array() {
        let mut i: usize = 0;
        assert(items@.take(0) =~= seq![]);
        while i < items.len()
            invariant
                i <= items.len(),
                text::texts(out@) == texts_among(name_members(items@.take(i as int))),
            decreases items.len() - i,
        {
            let ghost so_far = text::texts(out@);
            let ghost members = name_members(items@.take(i as int));
            assert(items@.take(i + 1).drop_last() =~= items@.take(i as int));
            if let Some(name) = outside::json_get(&items[i], "name") {
                assert(members.push(*name).drop_last() =~= members);
                if let Some(name) = name.as_str() {
                    out.push(name.to_owned());
                    assert(text::texts(out@) =~= so_far.push(name@));
                }
            }
            i = i + 1;
        }
        assert(items@.take(i as int) =~= items@);
    }
    out
}

/// The texts in the array that is a member of a value.
pub fn string_array(value: &serde_json::Value, field: &str) -> (r: Vec<String>)
    ensures
        text::texts(r@) == listed_texts(*value, field@),
{
    let mut out: Vec<String> = Vec::new();
    assert(text::texts(out@) =~= seq![]);
    if let Some(member) = outside::json_get(value, field) {
        if let Some(items) = member.as_array() {
            let mut i: usize = 0;
            assert(items@.take(0) =~= seq![]);
            while i < items.len()
                invariant
                    i <= items.len(),
                    text::texts(out@) == texts_among(items@.take(i as int)),
                decreases items.len() - i,
            {
                let ghost so_far = text::texts(out@);
                assert(items@.take(i + 1).drop_last() =~= items@.take(i as int));
                if let Some(item) = items[i].as_str() {
                    out.push(item.to_owned());
                    assert(text::texts(out@) =~= so_far.push(item@));
                }
                i = i + 1;
            }
            assert(items@.take(i as int) =~= items@);
        }
    }
    out
}

/// The names to complete in a JSON value.
pub fn offered_names(kind: &CompleteKind, value: &serde_json::Value) -> (r: Vec<String>)
    ensures
        text::texts(r@) == offered(kind, *value),
{
    match kind {
        CompleteKind::Ports { .. } => port_names(value),
        CompleteKind::Scenarios { .. } => string_array(value, "scenarios"),
        CompleteKind::Triggers { .. } => string_array(value, "triggers"),
    }
}

/// The names to complete that a reply offers. Whatever goes wrong, there are
/// none: completion is never noisy.
pub fn complete_names(kind: &CompleteKind, reply: &Result<(u16, Vec<u8>), String>) -> (r: Vec<
    String,
>)
    ensures
        text::texts(r@) == (match reply {
            Ok((status, body)) => match outside::json_parsed(body@) {
                Some(value) if *status == 200 => offered(kind, value),
                _ => seq![],
            },
            Err(_) => seq![],
        }),
{
    let none: Vec<String> = Vec::new();
    assert(text::texts(none@) =~= seq![]);
    let body = match reply {
        Ok((status, body)) => if *status == 200 {
            body
        } else {
            return none;
        },
        Err(_) => return none,
    };
    let value = match outside::json_parse(body.as_slice()) {
        Some(value) => value,
        None => return none,
    };
    offered_names(kind, &value)
}

// ---------------------------------------------------------------------------
// Laws
// ---------------------------------------------------------------------------

proof fn lemma_body_text_read_back(s: Seq<char>, rest: Seq<char>)
    requires
        forall|i: int| 0 <= i < s.len() ==> #[trigger] s[i] > '\u{1f}',
    ensures
        json::unescaped(body_text(s) + rest) == (match json::unescaped(rest) {
            Some(u) => Some(s + u),
            None => None,
        }),
    decreases s.len(),
{
    if s.len() == 0 {
        assert(body_text(s) + rest =~= rest);
        if let Some(u) = json::unescaped(rest) {
            assert(s + u =~= u);
        }
    } else {
        let front = s.drop_last();
        let c = s.last();
        let tail = body_char(c) + rest;
        assert(body_text(s) + rest =~= body_text(front) + tail);
        assert forall|i: int| 0 <= i < front.len() implies #[trigger] front[i] > '\u{1f}' by {
            assert(front[i] == s[i]);
        }
        lemma_body_text_read_back(front, tail);
        assert(s[s.len() - 1] > '\u{1f}');
        if c == '"' || c == '\\' {
            assert(tail.skip(2) =~= rest);
        } else {
            assert(tail.skip(1) =~= rest);
        }
        if let Some(u) = json::unescaped(rest) {
            assert(front + (seq![c] + u) =~= s + u);
        }
    }
}

/// The scenario that a command names is the one that a reader of the JSON body
/// finds there, as long as the name holds no control characters: those go into
/// the body as they are, which JSON does not allow.
pub proof fn law_scenario_is_read_back(scenario: Seq<char>)
    requires
        forall|i: int| 0 <= i < scenario.len() ==> #[trigger] scenario[i] > '\u{1f}',
    ensures
        json::unescaped(body_text(scenario)) == Some(scenario),
{
    lemma_body_text_read_back(scenario, seq![]);
    assert(body_text(scenario) + Seq::<char>::empty() =~= body_text(scenario));
    assert(scenario + Seq::<char>::empty() =~= scenario);
}

/// Whether every line feed is followed by a `C`.
spec fn calm(s: Seq<char>) -> bool {
    forall|i: int|
        0 <= i < s.len() && #[trigger] s[i] == '\n' ==> i + 1 < s.len() && s[i + 1] == 'C'
}

proof fn lemma_join(a: Seq<char>, b: Seq<char>)
    requires
        is_ascii_chars(a),
        is_ascii_chars(b),
        calm(a),
        calm(b),
    ensures
        is_ascii_chars(a + b),
        calm(a + b),
{
    let s = a + b;
    assert forall|i: int| 0 <= i < s.len() implies '\0' <= #[trigger] s[i] <= '\u{7f}' by {
        if i < a.len() {
            assert(s[i] == a[i]);
        } else {
            assert(s[i] == b[i - a.len()]);
        }
    }
    assert forall|i: int| 0 <= i < s.len() && #[trigger] s[i] == '\n' implies i + 1 < s.len()
        && s[i + 1] == 'C' by {
        if i < a.len() {
            assert(a[i] == '\n');
            assert(s[i + 1] == a[i + 1]);
        } else {
            assert(b[i - a.len()] == '\n');
            assert(s[i + 1] == b[i + 1 - a.len()]);
        }
    }
}

proof fn lemma_decimal_is_calm(n: nat)
    ensures
        is_ascii_chars(text::decimal(n)),
        calm(text::decimal(n)),
{
    text::lemma_decimal_is_one_word(n);
    let d = text::decimal(n);
    assert forall|i: int| 0 <= i < d.len() implies '\0' <= #[trigger] d[i] <= '\u{7f}' && d[i]
        != '\n' by {
        assert('0' <= d[i] && d[i] <= '9');
    }
}

/// The head of a reply without the empty line that ends it.
spec fn reply_lines(response: http::ResponseView) -> Seq<char> {
    "HTTP/1.1 "@ + text::decimal(response.status as nat) + " "@ + response.reason
        + "\r\nContent-Type: "@ + response.content_type + "\r\nContent-Length: "@ + text::decimal(
        response.body.len(),
    ) + "\r\nConnection: close"@
}

proof fn lemma_reply_lines(response: http::ResponseView)
    requires
        response.plain(),
    ensures
        is_ascii_chars(reply_lines(response)),
        calm(reply_lines(response)),
        response.head() == reply_lines(response) + "\r\n\r\n"@,
{
    reveal_strlit("HTTP/1.1 ");
    reveal_strlit(" ");
    reveal_strlit("\r\nContent-Type: ");
    reveal_strlit("\r\nContent-Length: ");
    reveal_strlit("\r\nConnection: close");
    reveal_strlit("\r\n\r\n");
    reveal_strlit("\r\nConnection: close\r\n\r\n");
    let a = "HTTP/1.1 "@;
    let b = a + text::decimal(response.status as nat);
    let c = b + " "@;
    let d = c + response.reason;
    let e = d + "\r\nContent-Type: "@;
    let f = e + response.content_type;
    let g = f + "\r\nContent-Length: "@;
    let h = g + text::decimal(response.body.len());
    lemma_decimal_is_calm(response.status as nat);
    lemma_decimal_is_calm(response.body.len());
    lemma_join(a, text::decimal(response.status as nat));
    lemma_join(b, " "@);
    lemma_join(c, response.reason);
    lemma_join(d, "\r\nContent-Type: "@);
    lemma_join(e, response.content_type);
    lemma_join(f, "\r\nContent-Length: "@);
    lemma_join(g, text::decimal(response.body.len()));
    lemma_join(h, "\r\nConnection: close"@);
    assert("\r\nConnection: close\r\n\r\n"@ =~= "\r\nConnection: close"@ + "\r\n\r\n"@);
    assert(response.head() =~= h + "\r\nConnection: close\r\n\r\n"@);
    assert(response.head() =~= reply_lines(response) + "\r\n\r\n"@);
}

proof fn lemma_reply_end(response: http::ResponseView)
    requires
        response.plain(),
    ensures
        framing::find(response.bytes(), head_end()) == Some(reply_lines(response).len() as int),
        response.bytes().take(reply_lines(response).len() as int) == encode_utf8(
            reply_lines(response),
        ),
        response.bytes().skip(reply_lines(response).len() as int + 4) == response.body,
{
    let lines = reply_lines(response);
    let head = response.head();
    let buf = response.bytes();
    let n = lines.len() as int;
    lemma_reply_lines(response);
    reveal_strlit("\r\n\r\n");
    assert(is_ascii_chars(head)) by {
        assert forall|i: int| 0 <= i < head.len() implies '\0' <= #[trigger] head[i]
            <= '\u{7f}' by {
            if i < n {
                assert(head[i] == lines[i]);
            } else {
                assert(head[i] == "\r\n\r\n"@[i - n]);
            }
        }
    }
    is_ascii_chars_encode_utf8(head);
    is_ascii_chars_encode_utf8(lines);
    assert(head.len() == n + 4);
    assert forall|i: int| 0 <= i < head.len() implies #[trigger] buf[i] == head[i] as u8 by {
        assert(encode_utf8(head)[i] == head[i] as u8);
    }
    assert(buf.take(n) =~= encode_utf8(lines)) by {
        assert forall|i: int| 0 <= i < n implies #[trigger] buf.take(n)[i] == encode_utf8(
            lines,
        )[i] by {
            assert(buf[i] == head[i] as u8);
            assert(head[i] == lines[i]);
        }
    }
    assert(buf.skip(n + 4) =~= response.body);
    assert(head[n] == '\r' && head[n + 1] == '\n' && head[n + 2] == '\r' && head[n + 3] == '\n');
    assert(buf[n] == 13 && buf[n + 1] == 10 && buf[n + 2] == 13 && buf[n + 3] == 10);
    assert(buf.subrange(n, n + 4) =~= head_end());
    assert forall|j: int| 0 <= j < n implies !#[trigger] framing::occurs_at(
        buf,
        head_end(),
        j,
    ) by {
        if framing::occurs_at(buf, head_end(), j) {
            assert(buf.subrange(j, j + 4)[1] == 10 && buf.subrange(j, j + 4)[2] == 13);
            assert(buf[j + 1] == 10 && buf[j + 2] == 13);
            assert('\0' <= head[j + 1] <= '\u{7f}');
            assert(head[j + 1] == '\n');
            if j + 1 < n {
                assert(lines[j + 1] == '\n');
                assert(head[j + 2] == 'C');
            }
        }
    }
    assert(framing::first_at(buf, head_end(), n));
    framing::lemma_find(buf, head_end(), n);
}

proof fn lemma_reply_status(response: http::ResponseView)
    requires
        response.plain(),
    ensures
        head_status(reply_lines(response)) == Ok::<u16, Seq<char>>(response.status),
{
    let lines = reply_lines(response);
    let status = text::decimal(response.status as nat);
    let rest = "Content-Type: "@ + response.content_type + "\r\nContent-Length: "@ + text::decimal(
        response.body.len(),
    ) + "\r\nConnection: close"@;
    reveal_strlit("HTTP/1.1 ");
    reveal_strlit("HTTP/1.1");
    reveal_strlit(" ");
    reveal_strlit("\r\nContent-Type: ");
    reveal_strlit("Content-Type: ");
    let after = response.reason + seq!['\r'];
    let line = "HTTP/1.1"@ + seq![' '] + (status + seq![' '] + after);
    assert("\r\nContent-Type: "@ =~= seq!['\r', '\n'] + "Content-Type: "@);
    assert(lines =~= line + seq!['\n'] + rest);
    text::lemma_decimal_is_one_word(response.status as nat);
    assert forall|i: int| 0 <= i < line.len() implies #[trigger] line[i] != '\n' by {
        let k = "HTTP/1.1"@.len();
        if i < k {
            assert(line[i] == "HTTP/1.1"@[i]);
        } else if i > k && i < k + 1 + status.len() {
            assert(line[i] == status[i - k - 1]);
        } else if i > k + 1 + status.len() && i < line.len() - 1 {
            assert(line[i] == response.reason[i - k - 2 - status.len()]);
        }
    }
    text::lemma_split_step(line, '\n', rest);
    assert(first_line(lines) == line);
    text::lemma_words_step("HTTP/1.1"@, ' ', status + seq![' '] + after);
    text::lemma_words_step(status, ' ', after);
    assert(text::words(line)[1] == status);
    text::law_decimal_is_read_back(response.status as nat);
}

/// The client reads the status and the body of a reply back as the service
/// wrote them.
pub proof fn law_replies_are_read_back(response: http::ResponseView)
    requires
        response.plain(),
    ensures
        response_parsed(response.bytes()) == Ok::<(u16, Seq<u8>), Seq<char>>(
            (response.status, response.body),
        ),
{
    lemma_reply_end(response);
    lemma_reply_status(response);
    encode_utf8_valid_utf8(reply_lines(response));
    encode_utf8_decode_utf8(reply_lines(response));
}

impl CallView {
    /// The `Host` line.
    pub open spec fn host_line(self, host: Seq<char>) -> Seq<char> {
        "Host: "@ + host + "\r\n"@
    }

    /// The `Content-Length` line.
    pub open spec fn length_line(self) -> Seq<char> {
        "Content-Length: "@ + text::decimal(self.body.len()) + "\r\n"@
    }

    /// The lines of the head.
    pub open spec fn lines(self, host: Seq<char>) -> Seq<Seq<char>> {
        seq![
            self.request_line(),
            self.host_line(host),
            self.length_line(),
            "Connection: close\r\n"@,
            "\r\n"@,
        ]
    }

    /// The request as the service takes it.
    pub open spec fn received(self) -> http::RequestView {
        let (path, query) = http::target_parts(self.path);
        http::RequestView { method: self.method, path, query, body: self.body }
    }
}

/// What the service has read of a request after the given lines, and what the
/// last of them led to.
pub open spec fn lines_read(lines: Seq<Seq<char>>) -> (http::HeaderStep, http::HeadView)
    decreases lines.len(),
{
    if lines.len() <= 1 {
        (http::HeaderStep::More, http::HeadView::started(lines[0]))
    } else {
        lines_read(lines.drop_last()).1.fed(lines.last())
    }
}

/// Whether a text is one line: it ends with its only line feed.
pub open spec fn is_line(s: Seq<char>) -> bool {
    s.len() > 0 && forall|i: int| 0 <= i < s.len() ==> (#[trigger] s[i] == '\n' <==> i == s.len() - 1)
}

/// Whether a text is a word: not empty and without whitespace.
pub open spec fn is_word(s: Seq<char>) -> bool {
    s.len() > 0 && forall|i: int| 0 <= i < s.len() ==> !text::is_space(#[trigger] s[i])
}

proof fn lemma_request_lines(call: CallView, host: Seq<char>)
    requires
        is_word(call.method),
        is_word(call.path),
        forall|i: int| 0 <= i < host.len() ==> #[trigger] host[i] != '\n',
    ensures
        forall|i: int| 0 <= i < 5 ==> is_line(#[trigger] call.lines(host)[i]),
        call.head(host) == call.request_line() + call.host_line(host) + call.length_line()
            + "Connection: close\r\n"@ + "\r\n"@,
{
    reveal_strlit(" ");
    reveal_strlit(" HTTP/1.1\r\n");
    reveal_strlit(" HTTP/1.1\r\nHost: ");
    reveal_strlit("Host: ");
    reveal_strlit("\r\n");
    reveal_strlit("\r\nContent-Length: ");
    reveal_strlit("Content-Length: ");
    reveal_strlit("\r\nConnection: close\r\n\r\n");
    reveal_strlit("Connection: close\r\n");
    let d = text::decimal(call.body.len());
    text::lemma_decimal_is_one_word(call.body.len());
    let request = call.request_line();
    let m = call.method.len() as int;
    let p = call.path.len() as int;
    assert forall|i: int| 0 <= i < request.len() implies (#[trigger] request[i] == '\n' <==> i
        == request.len() - 1) by {
        if i < m {
            assert(request[i] == call.method[i]);
        } else if m < i < m + 1 + p {
            assert(request[i] == call.path[i - m - 1]);
        } else if i > m {
            assert(request[i] == " HTTP/1.1\r\n"@[i - m - 1 - p]);
        }
    }
    let host_line = call.host_line(host);
    assert forall|i: int| 0 <= i < host_line.len() implies (#[trigger] host_line[i] == '\n' <==> i
        == host_line.len() - 1) by {
        if 6 <= i < 6 + host.len() {
            assert(host_line[i] == host[i - 6]);
        }
    }
    let length = call.length_line();
    assert forall|i: int| 0 <= i < length.len() implies (#[trigger] length[i] == '\n' <==> i
        == length.len() - 1) by {
        if 16 <= i < 16 + d.len() {
            assert(length[i] == d[i - 16]);
        }
    }
    assert(is_line("Connection: close\r\n"@));
    assert(is_line("\r\n"@));
    assert(call.head(host) =~= request + host_line + length + "Connection: close\r\n"@ + "\r\n"@);
}

proof fn lemma_ascii_boundary(line: Seq<char>, at: int)
    requires
        is_ascii_chars(line),
        0 <= at < line.len(),
    ensures
        is_char_boundary(encode_utf8(line), at),
{
    is_ascii_chars_encode_utf8(line);
    encode_utf8_valid_utf8(line);
    let bytes = encode_utf8(line);
    assert('\0' <= line[at] <= '\u{7f}');
    is_char_boundary_iff_not_is_continuation_byte(bytes, at);
    assert(!is_continuation_byte(bytes[at]));
}

proof fn lemma_not_length(line: Seq<char>, at: int)
    requires
        0 <= at < 15,
        at < line.len(),
        is_ascii_chars(line.take(at + 1)),
        http::lower(line[at] as u8) != http::lower("content-length:"@[at] as u8),
    ensures
        http::after_prefix(line, "content-length:"@) is None,
{
    let prefix = "content-length:"@;
    reveal_strlit("content-length:");
    assert(is_ascii_chars(prefix));
    is_ascii_chars_encode_utf8(prefix);
    let front = line.take(at + 1);
    is_ascii_chars_encode_utf8(front);
    assert(line =~= front + line.skip(at + 1));
    text::lemma_encode_joined(front, line.skip(at + 1));
    let bytes = encode_utf8(line);
    assert(bytes[at] == encode_utf8(front)[at]);
    assert(front[at] == line[at]);
    if bytes.len() >= 15 && http::same_but_case(bytes.take(15), encode_utf8(prefix)) {
        assert(http::lower(bytes.take(15)[at]) == http::lower(encode_utf8(prefix)[at]));
    }
}

proof fn lemma_length(n: nat)
    requires
        n <= usize::MAX,
    ensures
        ({
            let line = "Content-Length: "@ + text::decimal(n) + "\r\n"@;
            &&& http::after_prefix(line, "content-length:"@) matches Some(value)
                && http::announced(value) == n
            &&& is_ascii_chars(line)
        }),
{
    let prefix = "content-length:"@;
    let name = "Content-Length:"@;
    let d = text::decimal(n);
    let line = "Content-Length: "@ + d + "\r\n"@;
    reveal_strlit("content-length:");
    reveal_strlit("Content-Length:");
    reveal_strlit("Content-Length: ");
    reveal_strlit("\r\n");
    text::lemma_decimal_is_one_word(n);
    assert forall|i: int| 0 <= i < line.len() implies '\0' <= #[trigger] line[i] <= '\u{7f}' by {
        if 16 <= i < 16 + d.len() {
            assert(line[i] == d[i - 16]);
        }
    }
    let value = seq![' '] + d + seq!['\r', '\n'];
    lemma_ascii_boundary(line, 15);
    assert(line =~= name + value);
    assert(is_ascii_chars(name));
    assert(is_ascii_chars(prefix));
    is_ascii_chars_encode_utf8(name);
    is_ascii_chars_encode_utf8(prefix);
    text::lemma_encode_joined(name, value);
    let bytes = encode_utf8(line);
    assert(bytes.take(15) =~= encode_utf8(name));
    assert(bytes.skip(15) =~= encode_utf8(value));
    encode_utf8_decode_utf8(value);
    assert forall|i: int| 0 <= i < 15 implies http::lower(#[trigger] bytes.take(15)[i])
        == http::lower(encode_utf8(prefix)[i]) by {
        assert(encode_utf8(name)[i] == name[i] as u8);
        assert(encode_utf8(prefix)[i] == prefix[i] as u8);
    }
    assert('0' <= d[0] && d[0] <= '9');
    assert('0' <= d[d.len() - 1] && d[d.len() - 1] <= '9');
    text::lemma_trim_line(d);
    text::law_decimal_is_read_back(n);
}

/// The service reads the lines of a request of the client as the client wrote
/// them: the method, the path with its query, and the length of the body. The
/// head of the request is those lines, and each of them is a line by itself.
pub proof fn law_requests_are_read_back(call: CallView, host: Seq<char>)
    requires
        is_word(call.method),
        is_word(call.path),
        forall|i: int| 0 <= i < host.len() ==> #[trigger] host[i] != '\n',
        encode_utf8(call.head(host)).len() <= http::MAX_HEADER_BYTES,
        call.body.len() <= usize::MAX,
    ensures
        call.head(host) == call.request_line() + call.host_line(host) + call.length_line()
            + "Connection: close\r\n"@ + "\r\n"@,
        forall|i: int| 0 <= i < 5 ==> is_line(#[trigger] call.lines(host)[i]),
        forall|i: int|
            1 <= i < 5 ==> (#[trigger] lines_read(call.lines(host).take(i))).0
                == http::HeaderStep::More,
        ({
            let (step, head) = lines_read(call.lines(host));
            &&& step == http::HeaderStep::End
            &&& head.method == call.received().method
            &&& head.path == call.received().path
            &&& head.query == call.received().query
            &&& head.content_length == call.body.len()
        }),
{
    let request = call.request_line();
    let host_line = call.host_line(host);
    let length = call.length_line();
    let close = "Connection: close\r\n"@;
    let end = "\r\n"@;
    let lines = call.lines(host);
    lemma_request_lines(call, host);
    reveal_strlit(" ");
    reveal_strlit(" HTTP/1.1\r\n");
    reveal_strlit("HTTP/1.1\r\n");
    reveal_strlit("Host: ");
    reveal_strlit("\r\n");
    reveal_strlit("\n");
    reveal_strlit("Content-Length: ");
    reveal_strlit("Connection: close\r\n");
    reveal_strlit("content-length:");
    // the lengths of the lines add up
    text::lemma_encode_joined(request + host_line + length + close, end);
    text::lemma_encode_joined(request + host_line + length, close);
    text::lemma_encode_joined(request + host_line, length);
    text::lemma_encode_joined(request, host_line);
    // the request line
    let tail = call.path + seq![' '] + "HTTP/1.1\r\n"@;
    assert(request =~= call.method + seq![' '] + tail);
    text::lemma_words_step(call.method, ' ', tail);
    text::lemma_words_step(call.path, ' ', "HTTP/1.1\r\n"@);
    assert(http::word(request, 0) == call.method);
    assert(http::word(request, 1) == call.path);
    // the other lines
    assert(host_line[0] == 'H');
    lemma_not_length(host_line, 0);
    lemma_length(call.body.len());
    assert(is_ascii_chars(close));
    assert(is_ascii_chars(close.take(4)));
    lemma_not_length(close, 3);
    assert(lines.drop_last() =~= lines.take(4));
    assert(lines.take(4).drop_last() =~= lines.take(3));
    assert(lines.take(3).drop_last() =~= lines.take(2));
    assert(lines.take(2).drop_last() =~= lines.take(1));
    assert(lines.take(4).last() == close);
    assert(lines.take(3).last() == length);
    assert(lines.take(2).last() == host_line);
    assert(end.len() == 2 && "\n"@.len() == 1);
    let h0 = lines_read(lines.take(1)).1;
    assert(h0 == http::HeadView::started(request));
    assert(host_line.len() > 2 && length.len() > 2 && close.len() > 2);
    assert(lines_read(lines.take(2)) == h0.fed(host_line));
    let h1 = lines_read(lines.take(2)).1;
    assert(lines_read(lines.take(3)) == h1.fed(length));
    let h2 = lines_read(lines.take(3)).1;
    assert(lines_read(lines.take(4)) == h2.fed(close));
    let h3 = lines_read(lines.take(4)).1;
    assert(lines_read(lines) == h3.fed(end));
}

/// Whether a name can stand between the slashes of a path.
pub open spec fn is_segment(s: Seq<char>) -> bool {
    forall|i: int| 0 <= i < s.len() ==> #[trigger] s[i] != '/' && s[i] != '?'
}

/// A path without a query is taken as it is, and its first part is `ports`.
proof fn lemma_port_path(port: Seq<char>, rest: Seq<char>)
    requires
        is_segment(port),
        forall|i: int| 0 <= i < rest.len() ==> #[trigger] rest[i] != '?',
    ensures
        http::target_parts(port_path(port, rest)) == (
            port_path(port, rest),
            Seq::<(Seq<char>, Seq<char>)>::empty(),
        ),
        http::segments(port_path(port, rest)) == seq!["ports"@] + text::split(port + rest, '/'),
{
    let path = port_path(port, rest);
    reveal_strlit("/ports/");
    reveal_strlit("ports");
    assert forall|i: int| 0 <= i < path.len() implies #[trigger] path[i] != '?' by {
        if 7 <= i < 7 + port.len() {
            assert(path[i] == port[i - 7]);
        } else if i >= 7 {
            assert(path[i] == rest[i - 7 - port.len()]);
        }
    }
    text::lemma_split_step(path, '?', seq![]);
    assert(path[0] == '/' && path[1] == 'p');
    text::lemma_run_len_is(path, text::equal_to('/'), 1);
    assert(path.skip(1) =~= "ports"@ + seq!['/'] + (port + rest));
    text::lemma_split_step("ports"@, '/', port + rest);
}

/// The parts of a path below a port.
proof fn lemma_split_two(port: Seq<char>, last: Seq<char>)
    requires
        is_segment(port),
        is_segment(last),
    ensures
        text::split(port, '/') == seq![port],
        text::split(port + (seq!['/'] + last), '/') == seq![port, last],
{
    text::lemma_split_step(port, '/', last);
    text::lemma_split_step(last, '/', seq![]);
    assert(port + (seq!['/'] + last) =~= port + seq!['/'] + last);
    assert(seq![port] + seq![last] =~= seq![port, last]);
}

proof fn lemma_split_three(port: Seq<char>, middle: Seq<char>, last: Seq<char>)
    requires
        is_segment(port),
        is_segment(middle),
        is_segment(last),
    ensures
        text::split(port + (seq!['/'] + middle + seq!['/'] + last), '/') == seq![
            port,
            middle,
            last,
        ],
{
    let tail = middle + (seq!['/'] + last);
    lemma_split_two(middle, last);
    text::lemma_split_step(port, '/', tail);
    assert(port + (seq!['/'] + middle + seq!['/'] + last) =~= port + seq!['/'] + tail);
    assert(seq![port] + seq![middle, last] =~= seq![port, middle, last]);
}

proof fn lemma_words_differ()
    ensures
        "GET"@ != "POST"@,
        "GET"@ != "DELETE"@,
        "POST"@ != "DELETE"@,
        "raw"@ != "events"@,
        "capture"@ != "triggers"@,
        is_segment("scenario"@),
        is_segment("triggers"@),
        is_segment("capture"@),
        is_segment("raw"@),
        is_segment("events"@),
        "/scenario"@ == seq!['/'] + "scenario"@,
        "/triggers/"@ == seq!['/'] + "triggers"@ + seq!['/'],
        "/capture/raw"@ == seq!['/'] + "capture"@ + seq!['/'] + "raw"@,
        "/capture/events"@ == seq!['/'] + "capture"@ + seq!['/'] + "events"@,
{
    reveal_strlit("GET");
    reveal_strlit("POST");
    reveal_strlit("DELETE");
    reveal_strlit("raw");
    reveal_strlit("events");
    reveal_strlit("capture");
    reveal_strlit("triggers");
    reveal_strlit("scenario");
    reveal_strlit("/scenario");
    reveal_strlit("/triggers/");
    reveal_strlit("/capture/raw");
    reveal_strlit("/capture/events");
    assert("GET"@.len() == 3 && "POST"@.len() == 4 && "DELETE"@.len() == 6);
    assert("raw"@.len() == 3 && "events"@.len() == 6);
    assert("capture"@.len() == 7 && "triggers"@.len() == 8);
    assert("/scenario"@ =~= seq!['/'] + "scenario"@);
    assert("/triggers/"@ =~= seq!['/'] + "triggers"@ + seq!['/']);
    assert("/capture/raw"@ =~= seq!['/'] + "capture"@ + seq!['/'] + "raw"@);
    assert("/capture/events"@ =~= seq!['/'] + "capture"@ + seq!['/'] + "events"@);
}

/// The commands about a port, a scenario or a trigger reach what they name.
pub proof fn law_commands_reach_their_port(port: Seq<char>, trigger: Seq<char>, body: Seq<u8>)
    requires
        is_segment(port),
        is_segment(trigger),
    ensures
        http::routed(plain_call("GET"@, "/ports"@).received()) == http::RouteView::ListPorts,
        http::routed(plain_call("GET"@, port_path(port, seq![])).received())
            == http::RouteView::Port(port, http::ActionView::Describe),
        http::routed(
            (CallView {
                method: "POST"@,
                path: port_path(port, "/scenario"@),
                body,
            }).received(),
        ) == http::RouteView::Port(port, http::ActionView::SwitchScenario),
        http::routed(
            plain_call("POST"@, port_path(port, "/triggers/"@ + trigger)).received(),
        ) == http::RouteView::Port(port, http::ActionView::FireTrigger(trigger)),
{
    lemma_words_differ();
    reveal_strlit("/ports");
    reveal_strlit("ports");
    // the list of ports
    let list = "/ports"@;
    text::lemma_split_step(list, '?', seq![]);
    text::lemma_run_len_is(list, text::equal_to('/'), 1);
    assert(list.skip(1) =~= "ports"@);
    text::lemma_split_step("ports"@, '/', seq![]);
    assert(http::segments(list)[0] == "ports"@);
    // one port
    lemma_port_path(port, seq![]);
    lemma_split_two(port, "scenario"@);
    assert(port + Seq::<char>::empty() =~= port);
    assert(seq!["ports"@] + seq![port] =~= seq!["ports"@, port]);
    // its scenario
    lemma_port_path(port, "/scenario"@);
    assert(seq!["ports"@] + seq![port, "scenario"@] =~= seq!["ports"@, port, "scenario"@]);
    // a trigger
    let rest = "/triggers/"@ + trigger;
    assert(rest =~= seq!['/'] + "triggers"@ + seq!['/'] + trigger);
    assert forall|i: int| 0 <= i < rest.len() implies #[trigger] rest[i] != '?' by {
        let n = "/triggers/"@.len();
        if i >= n {
            assert(rest[i] == trigger[i - n]);
        } else {
            reveal_strlit("/triggers/");
        }
    }
    lemma_port_path(port, rest);
    lemma_split_three(port, "triggers"@, trigger);
    assert(seq!["ports"@] + seq![port, "triggers"@, trigger] =~= seq![
        "ports"@,
        port,
        "triggers"@,
        trigger,
    ]);
}

/// The query `since=<n>` asks for the events after `n`.
proof fn lemma_since(since: u64)
    ensures
        http::since_of(
            http::query_pairs(text::split("since="@ + text::decimal(since as nat), '&')),
        ) == since,
{
    let d = text::decimal(since as nat);
    let query = "since="@ + d;
    reveal_strlit("since=");
    reveal_strlit("since");
    text::lemma_decimal_is_one_word(since as nat);
    assert forall|i: int| 0 <= i < query.len() implies #[trigger] query[i] != '&' by {
        if i >= 6 {
            assert(query[i] == d[i - 6]);
        }
    }
    text::lemma_split_step(query, '&', seq![]);
    assert(query =~= "since"@ + seq!['='] + d);
    text::lemma_split_step("since"@, '=', d);
    lemma_plain_ascii("since"@);
    assert forall|i: int| 0 <= i < d.len() implies '\0' <= #[trigger] d[i] <= '\u{7f}' && d[i]
        != '%' && d[i] != '+' by {
        assert('0' <= d[i] && d[i] <= '9');
    }
    lemma_plain_ascii(d);
    let parts = seq![query];
    assert(parts.drop_last() =~= seq![]);
    let none = Seq::<(Seq<char>, Seq<char>)>::empty();
    assert(http::query_pairs(seq![]) == none);
    assert(http::query_pairs(parts) == crate::table::inserted(none, "since"@, d));
    crate::table::law_insert_then_lookup(none, "since"@, d, "since"@);
    text::law_decimal_is_read_back(since as nat);
}

proof fn lemma_plain_ascii(s: Seq<char>)
    requires
        forall|i: int|
            0 <= i < s.len() ==> '\0' <= #[trigger] s[i] <= '\u{7f}' && s[i] != '%' && s[i] != '+',
    ensures
        http::url_decoded(s) == s,
{
    assert(is_ascii_chars(s));
    is_ascii_chars_encode_utf8(s);
    assert forall|i: int| 0 <= i < encode_utf8(s).len() implies #[trigger] encode_utf8(s)[i] != 37
        && encode_utf8(s)[i] != 43 by {
        assert(encode_utf8(s)[i] == s[i] as u8);
    }
    http::law_plain_text_decodes_to_itself(s);
}

/// The commands about a capture buffer reach the buffer of the port that they
/// name, and ask for the events after the id that they name.
pub proof fn law_capture_commands_reach_their_buffer(port: Seq<char>, since: u64)
    requires
        is_segment(port),
    ensures
        http::routed(plain_call("GET"@, port_path(port, "/capture/raw"@)).received())
            == http::RouteView::Port(port, http::ActionView::ReadRaw),
        http::routed(plain_call("DELETE"@, port_path(port, "/capture/raw"@)).received())
            == http::RouteView::Port(port, http::ActionView::ClearRaw),
        http::routed(
            plain_call(
                "GET"@,
                port_path(port, "/capture/events?since="@ + text::decimal(since as nat)),
            ).received(),
        ) == http::RouteView::Port(port, http::ActionView::ReadEvents(since)),
        http::routed(plain_call("DELETE"@, port_path(port, "/capture/events"@)).received())
            == http::RouteView::Port(port, http::ActionView::ClearEvents),
{
    lemma_words_differ();
    lemma_split_three(port, "capture"@, "raw"@);
    lemma_split_three(port, "capture"@, "events"@);
    assert forall|i: int| 0 <= i < "/capture/raw"@.len() implies #[trigger] "/capture/raw"@[i]
        != '?' by {
        reveal_strlit("/capture/raw");
    }
    assert forall|i: int| 0 <= i < "/capture/events"@.len() implies #[trigger] "/capture/events"@[i]
        != '?' by {
        reveal_strlit("/capture/events");
    }
    lemma_port_path(port, "/capture/raw"@);
    lemma_port_path(port, "/capture/events"@);
    assert(seq!["ports"@] + seq![port, "capture"@, "raw"@] =~= seq![
        "ports"@,
        port,
        "capture"@,
        "raw"@,
    ]);
    assert(seq!["ports"@] + seq![port, "capture"@, "events"@] =~= seq![
        "ports"@,
        port,
        "capture"@,
        "events"@,
    ]);
    let d = text::decimal(since as nat);
    let path = port_path(port, "/capture/events"@);
    let full = port_path(port, "/capture/events?since="@ + d);
    assert("/capture/events?since="@ =~= "/capture/events"@ + seq!['?'] + "since="@) by {
        reveal_strlit("/capture/events?since=");
        reveal_strlit("/capture/events");
        reveal_strlit("since=");
    }
    assert(full =~= path + seq!['?'] + ("since="@ + d));
    assert forall|i: int| 0 <= i < path.len() implies #[trigger] path[i] != '?' by {
        reveal_strlit("/ports/");
        if 7 <= i < 7 + port.len() {
            assert(path[i] == port[i - 7]);
        } else if i >= 7 {
            assert(path[i] == "/capture/events"@[i - 7 - port.len()]);
        }
    }
    text::lemma_split_step(path, '?', "since="@ + d);
    lemma_since(since);
}

/// A command fails, and the reply goes to the error stream, exactly when the
/// service answered with a status of 400 or more.
pub proof fn law_errors_are_told_by_the_status(prefix: Seq<char>, status: u16, body: Seq<u8>)
    ensures
        status_result(prefix, status) is Ok <==> status < 400,
        shown(status, body).0 <==> status >= 400,
{
}

/// The exit code tells of the whole command: it is zero when every call that the
/// command makes went well, and one otherwise. When the main call did not go
/// well, nothing is cleared.
pub proof fn law_exit_code_tells_the_whole_command(
    plan: PlanView,
    main: Result<(), Seq<char>>,
    clear: Result<(), Seq<char>>,
)
    ensures
        code_of(command_result(plan, main, clear)) == if main is Ok && (plan.clear is Some ==> clear
            is Ok) {
            0i32
        } else {
            1i32
        },
        main is Err ==> next_call(plan, main) is None,
        main is Ok ==> next_call(plan, main) == plan.clear,
{
}

/// When the service replied to every call, the exit code is zero exactly when
/// each status is below 400.
pub proof fn law_exit_code_tells_the_statuses(
    plan: PlanView,
    main_status: u16,
    clear_status: u16,
)
    ensures
        ({
            let main = if plan.main is Some {
                status_result(seq![], main_status)
            } else {
                Ok(())
            };
            let clear = if next_call(plan, main) is Some {
                status_result("clear: "@, clear_status)
            } else {
                Ok(())
            };
            code_of(command_result(plan, main, clear)) == 0 <==> (plan.main is Some ==> main_status
                < 400) && (plan.clear is Some ==> clear_status < 400)
        }),
{
}

/// Reading the raw bytes of a port with the client gives exactly the bytes that
/// the port holds: the request reaches the port, and its bytes come back and go
/// out as they are.
pub proof fn law_raw_capture_comes_through(
    ports: crate::table::Pairs<crate::port::PortView>,
    port: Seq<char>,
    clear: bool,
)
    requires
        is_segment(port),
        crate::table::lookup(ports, port) is Some,
    ensures
        ({
            let plan = capture_plan(
                port_path(port, "/capture/raw"@),
                port_path(port, "/capture/raw"@),
                true,
                clear,
                false,
            );
            let raw = crate::table::lookup(ports, port)->0.capture.raw;
            &&& http::handled(
                ports,
                http::routed(plan.main->0.received()),
                None,
            ).1 matches http::OutcomeView::Reply(response)
            &&& response_parsed(response.bytes()) == Ok::<(u16, Seq<u8>), Seq<char>>((200u16, raw))
            &&& plan_shown(plan, 200, raw) == (false, raw)
        }),
{
    law_capture_commands_reach_their_buffer(port, 0);
    let route = http::RouteView::Port(port, http::ActionView::ReadRaw);
    let outcome = http::handled(ports, route, None).1;
    http::law_replies_are_plain(ports, route, None, seq![], Ok(seq![]));
    law_replies_are_read_back(outcome->Reply_0);
}

/// A command is planned as the requests that do what it says, to the port that it
/// names and at the address that it gives: the port, the scenario, the trigger or
/// the buffer is the one of the command, a buffer is read unless it is only to be
/// cleared, and cleared where that is asked for.
pub proof fn law_commands_do_what_they_say(cmd: &Cmd)
    ensures
        ({
            let plan = cmd.planned();
            match *cmd {
                Cmd::Ports { addr, port: None } => {
                    &&& cmd.address() == addr@
                    &&& asks(plan.main, http::RouteView::ListPorts)
                    &&& plan.clear is None
                    &&& !plan.verbatim
                },
                Cmd::Ports { addr, port: Some(port) } => {
                    &&& cmd.address() == addr@
                    &&& is_segment(port@) ==> asks(
                        plan.main,
                        http::RouteView::Port(port@, http::ActionView::Describe),
                    )
                    &&& plan.clear is None
                    &&& !plan.verbatim
                },
                Cmd::Scenario { port, scenario, addr } => {
                    &&& cmd.address() == addr@
                    &&& is_segment(port@) ==> asks(
                        plan.main,
                        http::RouteView::Port(port@, http::ActionView::SwitchScenario),
                    )
                    &&& plan.clear is None
                    &&& !plan.verbatim
                },
                Cmd::Trigger { port, trigger, addr } => {
                    &&& cmd.address() == addr@
                    &&& is_segment(port@) && is_segment(trigger@) ==> asks(
                        plan.main,
                        http::RouteView::Port(port@, http::ActionView::FireTrigger(trigger@)),
                    )
                    &&& plan.clear is None
                    &&& !plan.verbatim
                },
                Cmd::Capture { kind: CaptureKind::Raw { port, clear, clear_only, addr } } => {
                    &&& cmd.address() == addr@
                    &&& plan.main is Some <==> !clear_only
                    &&& plan.clear is Some <==> clear || clear_only
                    &&& is_segment(port@) && !clear_only ==> asks(
                        plan.main,
                        http::RouteView::Port(port@, http::ActionView::ReadRaw),
                    )
                    &&& is_segment(port@) && (clear || clear_only) ==> asks(
                        plan.clear,
                        http::RouteView::Port(port@, http::ActionView::ClearRaw),
                    )
                    &&& plan.verbatim
                },
                Cmd::Capture {
                    kind: CaptureKind::Events { port, since, clear, clear_only, addr },
                } => {
                    &&& cmd.address() == addr@
                    &&& plan.main is Some <==> !clear_only
                    &&& plan.clear is Some <==> clear || clear_only
                    &&& is_segment(port@) && !clear_only ==> asks(
                        plan.main,
                        http::RouteView::Port(port@, http::ActionView::ReadEvents(since)),
                    )
                    &&& is_segment(port@) && (clear || clear_only) ==> asks(
                        plan.clear,
                        http::RouteView::Port(port@, http::ActionView::ClearEvents),
                    )
                    &&& !plan.verbatim
                },
            }
        }),
{
    match *cmd {
        Cmd::Ports { port: None, .. } => {
            law_commands_reach_their_port(seq![], seq![], seq![]);
        },
        Cmd::Ports { port: Some(port), .. } => {
            if is_segment(port@) {
                law_commands_reach_their_port(port@, seq![], seq![]);
            }
        },
        Cmd::Scenario { port, .. } => {
            if is_segment(port@) {
                law_commands_reach_their_port(
                    port@,
                    seq![],
                    cmd.planned().main->0.body,
                );
            }
        },
        Cmd::Trigger { port, trigger, .. } => {
            if is_segment(port@) && is_segment(trigger@) {
                law_commands_reach_their_port(port@, trigger@, seq![]);
            }
        },
        Cmd::Capture { kind: CaptureKind::Raw { port, .. } } => {
            if is_segment(port@) {
                law_capture_commands_reach_their_buffer(port@, 0);
            }
        },
        Cmd::Capture { kind: CaptureKind::Events { port, since, .. } } => {
            if is_segment(port@) {
                law_capture_commands_reach_their_buffer(port@, since);
            }
        },
    }
}

/// Whether there is a call, and the service takes it as the given request.
pub open spec fn asks(call: Option<CallView>, route: http::RouteView) -> bool {
    call matches Some(c) && http::routed(c.received()) == route
}

/// What is printed of a reply: of a success the body, with a newline at its end
/// where it has none, or just as it is where it is to go out verbatim; of an error
/// the status, the body and a newline, to the error stream. The message about an
/// error gives the status.
pub proof fn law_replies_are_shown(
    plan: PlanView,
    status: u16,
    body: Seq<u8>,
    prefix: Seq<char>,
)
    ensures
        ({
            let (to_stderr, bytes) = plan_shown(plan, status, body);
            &&& to_stderr <==> status >= 400
            &&& status < 400 && plan.verbatim ==> bytes == body
            &&& status < 400 && !plan.verbatim ==> body.is_prefix_of(bytes) && bytes.len() > 0
                && bytes.last() == 10
            &&& status < 400 && !plan.verbatim && body.len() > 0 && body.last() == 10 ==> bytes
                == body
            &&& status < 400 ==> bytes.len() <= body.len() + 1
            &&& status >= 400 ==> bytes == encode_utf8("HTTP "@) + encode_utf8(
                text::decimal(status as nat),
            ) + encode_utf8(" "@) + body + seq![10u8]
        }),
        status >= 400 ==> status_result(prefix, status) == Err::<(), Seq<char>>(
            prefix + "HTTP "@ + text::decimal(status as nat),
        ),
{
    let (to_stderr, bytes) = plan_shown(plan, status, body);
    if status >= 400 {
        let d = text::decimal(status as nat);
        text::lemma_encode_joined("HTTP "@ + d, " "@);
        text::lemma_encode_joined("HTTP "@, d);
    } else {
        assert(bytes.take(body.len() as int) =~= body);
    }
}

/// An error of the first call is what the command comes to; else, where something
/// is cleared, what came of that is.
pub proof fn law_first_error_counts(
    plan: PlanView,
    main: Result<(), Seq<char>>,
    clear: Result<(), Seq<char>>,
)
    ensures
        main matches Err(e) ==> command_result(plan, main, clear) == Err::<(), Seq<char>>(e),
        main is Ok && plan.clear is Some ==> command_result(plan, main, clear) == clear,
        main is Ok && plan.clear is None ==> command_result(plan, main, clear) is Ok,
{
}

/// The texts among the items of two lists, one after the other, are those of the
/// first and then those of the second; of one item there is one if it is a text, and
/// none otherwise. The same goes for the members called `name`.
pub proof fn law_names_are_offered_in_order(
    items: Seq<serde_json::Value>,
    more: Seq<serde_json::Value>,
    item: serde_json::Value,
)
    ensures
        texts_among(items + more) == texts_among(items) + texts_among(more),
        texts_among(seq![item]) == (match outside::json_text(item) {
            Some(t) => seq![t],
            None => seq![],
        }),
        name_members(items + more) == name_members(items) + name_members(more),
        name_members(seq![item]) == (match outside::json_member(item, "name"@) {
            Some(m) => seq![m],
            None => seq![],
        }),
    decreases more.len(),
{
    let one = seq![item];
    assert(one.drop_last() =~= seq![]);
    assert(texts_among(one.drop_last()) =~= seq![]);
    assert(name_members(one.drop_last()) =~= seq![]);
    assert(one.last() == item);
    if more.len() == 0 {
        assert(items + more =~= items);
        assert(texts_among(items) + texts_among(more) =~= texts_among(items));
        assert(name_members(items) + name_members(more) =~= name_members(items));
    } else {
        law_names_are_offered_in_order(items, more.drop_last(), item);
        assert((items + more).drop_last() =~= items + more.drop_last());
        assert(texts_among(items + more) =~= texts_among(items) + texts_among(more));
        assert(name_members(items + more) =~= name_members(items) + name_members(more));
    }
}

/// What is offered for completion: of the list of ports the names in it, of a port
/// its scenarios or its triggers, as they stand in the array of that name.
pub proof fn law_offered_names(kind: &CompleteKind, value: serde_json::Value)
    ensures
        match *kind {
            CompleteKind::Ports { .. } => match outside::json_items(value) {
                Some(items) => offered(kind, value) == texts_among(name_members(items)),
                None => offered(kind, value).len() == 0,
            },
            CompleteKind::Scenarios { .. } => match outside::json_member(value, "scenarios"@) {
                Some(member) => match outside::json_items(member) {
                    Some(items) => offered(kind, value) == texts_among(items),
                    None => offered(kind, value).len() == 0,
                },
                None => offered(kind, value).len() == 0,
            },
            CompleteKind::Triggers { .. } => match outside::json_member(value, "triggers"@) {
                Some(member) => match outside::json_items(member) {
                    Some(items) => offered(kind, value) == texts_among(items),
                    None => offered(kind, value).len() == 0,
                },
                None => offered(kind, value).len() == 0,
            },
        },
{
}

/// A reply is refused where its head has no end, where the head is not UTF-8, and
/// where the first line of it holds no number for a status; otherwise its status is
/// the second word of that line, and its body all that follows the end of the head.
pub proof fn law_replies_are_taken_apart(buf: Seq<u8>, k: int)
    requires
        0 <= k <= buf.len() - 4,
        buf.subrange(k, k + 4) == seq![13u8, 10u8, 13u8, 10u8],
        forall|j: int|
            0 <= j < k ==> #[trigger] buf.subrange(j, j + 4) != seq![13u8, 10u8, 13u8, 10u8],
    ensures
        !valid_utf8(buf.take(k)) ==> response_parsed(buf) is Err,
        valid_utf8(buf.take(k)) ==> {
            let head = decode_utf8(buf.take(k));
            let words = text::words(first_line(head));
            match response_parsed(buf) {
                Ok((status, body)) => words.len() >= 2 && text::number_of(words[1]) == Some(
                    status as nat,
                ) && body == buf.skip(k + 4),
                Err(_) => words.len() < 2 || (text::number_of(words[1]) matches Some(n) ==> n
                    > 65535),
            }
        },
{
    assert(framing::occurs_at(buf, head_end(), k));
    assert forall|j: int| 0 <= j < k implies !#[trigger] framing::occurs_at(
        buf,
        head_end(),
        j,
    ) by {
        assert(buf.subrange(j, j + 4) != seq![13u8, 10u8, 13u8, 10u8]);
    }
    framing::lemma_find(buf, head_end(), k);
    if valid_utf8(buf.take(k)) {
        let head = decode_utf8(buf.take(k));
        if head.len() == 0 {
            assert(first_line(head).len() == 0);
            assert(text::trim_start(first_line(head)).len() == 0);
        }
    }
}

/// A reply whose head has no end is refused.
pub proof fn law_endless_head_is_refused(buf: Seq<u8>)
    requires
        forall|j: int|
            0 <= j <= buf.len() - 4 ==> #[trigger] buf.subrange(j, j + 4) != seq![
                13u8,
                10u8,
                13u8,
                10u8,
            ],
    ensures
        response_parsed(buf) == Err::<(u16, Seq<u8>), Seq<char>>(
            "malformed response: no header terminator"@,
        ),
{
    if let Some(k) = framing::find(buf, head_end()) {
        assert(framing::first_at(buf, head_end(), k));
    }
}

} // verus!
