//! The HTTP API: reading requests, routing them, and what they reply.
//!
//! A connection carries one request. Its lines are handed in as they are read,
//! and the reply is handed out as bytes; the socket itself is elsewhere.
use crate::capture;
use crate::json;
use crate::outside;
use crate::port;
use crate::port::PortState;
use crate::server;
use crate::server::Server;
use crate::table;
use crate::table::Table;
use crate::text;
use vstd::prelude::*;
use vstd::utf8::*;

verus! {

/// The longest head of a request, in bytes.
pub const MAX_HEADER_BYTES: usize = 16 * 1024;

/// The longest body of a request, in bytes.
pub const MAX_BODY_BYTES: usize = 64 * 1024;

// ---------------------------------------------------------------------------
// Paths and queries
// ---------------------------------------------------------------------------

/// The byte that two characters after a `%` stand for: two hexadecimal digits,
/// or a `+` and one digit.
pub open spec fn hex_pair(a: u8, b: u8) -> Option<u8> {
    match (crate::bytes::hex_digit(a as char), crate::bytes::hex_digit(b as char)) {
        (Some(high), Some(low)) => Some((high * 16 + low) as u8),
        (None, Some(low)) if a == 43 => Some(low),
        _ => None,
    }
}

/// The bytes that a percent-encoded text stands for. A `+` is a space, and a `%`
/// that starts no escape is itself.
pub open spec fn percent_decoded(s: Seq<u8>) -> Seq<u8>
    decreases s.len(),
{
    if s.len() == 0 {
        seq![]
    } else if s[0] == 37 && s.len() > 2 && hex_pair(s[1], s[2]) is Some {
        seq![hex_pair(s[1], s[2])->0] + percent_decoded(s.skip(3))
    } else if s[0] == 43 {
        seq![32u8] + percent_decoded(s.skip(1))
    } else {
        seq![s[0]] + percent_decoded(s.skip(1))
    }
}

/// The text that a percent-encoded text stands for; empty when the bytes are
/// no UTF-8.
pub open spec fn url_decoded(s: Seq<char>) -> Seq<char> {
    let decoded = percent_decoded(encode_utf8(s));
    if valid_utf8(decoded) {
        decode_utf8(decoded)
    } else {
        seq![]
    }
}

fn hex_value(b: u8) -> (r: Option<u8>)
    ensures
        r == crate::bytes::hex_digit(b as char),
        r matches Some(d) ==> d < 16,
{
    if 48 <= b && b <= 57 {
        Some(b - 48)
    } else if 97 <= b && b <= 102 {
        Some(b - 97 + 10)
    } else if 65 <= b && b <= 70 {
        Some(b - 65 + 10)
    } else {
        None
    }
}

fn hex_pair_value(a: u8, b: u8) -> (r: Option<u8>)
    ensures
        r == hex_pair(a, b),
{
    match (hex_value(a), hex_value(b)) {
        (Some(high), Some(low)) => Some(high * 16 + low),
        (None, Some(low)) => if a == 43 {
            Some(low)
        } else {
            None
        },
        _ => None,
    }
}

/// Decodes a percent-encoded text.
pub fn url_decode(s: &str) -> (r: String)
    ensures
        r@ == url_decoded(s@),
{
    let bytes = s.as_bytes();
    let ghost all = bytes@;
    let mut out: Vec<u8> = Vec::new();
    let mut i: usize = 0;
    assert(all.skip(0) =~= all);
    assert(out@ + percent_decoded(all) =~= percent_decoded(all));
    while i < bytes.len()
        invariant
            i <= bytes.len(),
            all == bytes@,
            percent_decoded(all) == out@ + percent_decoded(all.skip(i as int)),
        decreases bytes.len() - i,
    {
        let ghost rest = all.skip(i as int);
        let ghost before = out@;
        let b = bytes[i];
        assert(rest[0] == b);
        assert(rest.skip(1) =~= all.skip(i + 1));
        let mut escape: Option<u8> = None;
        if b == 37 && bytes.len() - i > 2 {
            assert(rest[1] == bytes@[i + 1] && rest[2] == bytes@[i + 2]);
            escape = hex_pair_value(bytes[i + 1], bytes[i + 2]);
        }
        match escape {
            Some(n) => {
                out.push(n);
                assert(rest.skip(3) =~= all.skip(i + 3));
                assert(before + (seq![n] + percent_decoded(all.skip(i + 3))) =~= out@
                    + percent_decoded(all.skip(i + 3)));
                i = i + 3;
            },
            None => {
                let n: u8 = if b == 43 {
                    32
                } else {
                    b
                };
                out.push(n);
                assert(before + (seq![n] + percent_decoded(all.skip(i + 1))) =~= out@
                    + percent_decoded(all.skip(i + 1)));
                i = i + 1;
            },
        }
    }
    assert(all.skip(i as int) =~= Seq::<u8>::empty());
    assert(out@ + percent_decoded(all.skip(i as int)) =~= out@);
    match outside::text_from_utf8(out) {
        Ok(text) => text,
        Err(_) => String::new(),
    }
}

/// The key and the value of one part of a query.
pub open spec fn query_pair(part: Seq<char>) -> (Seq<char>, Seq<char>) {
    match text::split_first(part, '=') {
        Some((key, value)) => (url_decoded(key), url_decoded(value)),
        None => (url_decoded(part), url_decoded(seq![])),
    }
}

/// The keys and values of a query. Empty parts do not count, and of two values
/// for one key the later one does.
pub open spec fn query_pairs(parts: Seq<Seq<char>>) -> table::Pairs<Seq<char>>
    decreases parts.len(),
{
    if parts.len() == 0 {
        seq![]
    } else if parts.last().len() == 0 {
        query_pairs(parts.drop_last())
    } else {
        let (key, value) = query_pair(parts.last());
        table::inserted(query_pairs(parts.drop_last()), key, value)
    }
}

/// The path and the query of a request target.
pub open spec fn target_parts(raw: Seq<char>) -> (Seq<char>, table::Pairs<Seq<char>>) {
    match text::split_first(raw, '?') {
        None => (raw, seq![]),
        Some((path, query)) => (path, query_pairs(text::split(query, '&'))),
    }
}

/// Cuts a request target into its path and its query.
pub fn split_query(raw: &str) -> (r: (String, Table<String>))
    ensures
        (r.0@, r.1@) == target_parts(raw@),
{
    match text::split_text_once(raw, '?') {
        None => (raw.to_owned(), Table::new()),
        Some((path, query)) => {
            let parts = text::split_text(query.as_str(), '&');
            let ghost all = text::texts(parts@);
            let mut map: Table<String> = Table::new();
            let mut i: usize = 0;
            assert(all.take(0) =~= seq![]);
            while i < parts.len()
                invariant
                    i <= parts.len(),
                    all == text::texts(parts@),
                    map@ == query_pairs(all.take(i as int)),
                decreases parts.len() - i,
            {
                let part = &parts[i];
                assert(all.take(i + 1).drop_last() =~= all.take(i as int));
                assert(all.take(i + 1).last() == part@);
                proof {
                    reveal_strlit("");
                    assert(""@ =~= seq![]);
                    assert(part@.len() == 0 ==> part@ =~= ""@);
                }
                if !text::same_text(part.as_str(), "") {
                    match text::split_text_once(part.as_str(), '=') {
                        Some((key, value)) => map.insert(
                            url_decode(key.as_str()),
                            url_decode(value.as_str()),
                        ),
                        None => map.insert(url_decode(part.as_str()), url_decode("")),
                    }
                }
                i = i + 1;
            }
            assert(all.take(i as int) =~= all);
            (path, map)
        },
    }
}

// ---------------------------------------------------------------------------
// Requests
// ---------------------------------------------------------------------------

/// A request.
pub struct Request {
    pub method: String,
    pub path: String,
    pub query: Table<String>,
    pub body: Vec<u8>,
}

/// What a `Request` holds.
pub struct RequestView {
    pub method: Seq<char>,
    pub path: Seq<char>,
    pub query: table::Pairs<Seq<char>>,
    pub body: Seq<u8>,
}

impl View for Request {
    type V = RequestView;

    open spec fn view(&self) -> RequestView {
        RequestView {
            method: self.method@,
            path: self.path@,
            query: self.query@,
            body: self.body@,
        }
    }
}

/// An ASCII letter in lower case; any other byte as it is.
pub open spec fn lower(b: u8) -> u8 {
    if 65 <= b <= 90 {
        (b + 32) as u8
    } else {
        b
    }
}

/// Whether two byte sequences differ at most in the case of ASCII letters.
pub open spec fn same_but_case(a: Seq<u8>, b: Seq<u8>) -> bool {
    a.len() == b.len() && forall|i: int| 0 <= i < a.len() ==> lower(#[trigger] a[i]) == lower(b[i])
}

/// What follows `prefix`, in whatever case it is written, at the start of a line.
/// A line that has a character across the end of the prefix does not start with it.
pub open spec fn after_prefix(line: Seq<char>, prefix: Seq<char>) -> Option<Seq<char>> {
    let l = encode_utf8(line);
    let n = encode_utf8(prefix).len();
    if l.len() >= n && is_char_boundary(l, n as int) && same_but_case(
        l.take(n as int),
        encode_utf8(prefix),
    ) {
        Some(decode_utf8(l.skip(n as int)))
    } else {
        None
    }
}

fn lower_byte(b: u8) -> (r: u8)
    ensures
        r == lower(b),
{
    if 65 <= b && b <= 90 {
        b + 32
    } else {
        b
    }
}

/// Strips the name of a header off a line.
pub fn strip_header<'a>(line: &'a str, prefix: &str) -> (r: Option<&'a str>)
    ensures
        match r {
            Some(rest) => after_prefix(line@, prefix@) == Some(rest@),
            None => after_prefix(line@, prefix@) is None,
        },
{
    let l = line.as_bytes();
    let p = prefix.as_bytes();
    if l.len() < p.len() || !line.is_char_boundary(p.len()) {
        return None;
    }
    let mut i: usize = 0;
    while i < p.len()
        invariant
            i <= p.len() <= l.len(),
            l@ == encode_utf8(line@),
            p@ == encode_utf8(prefix@),
            forall|j: int| 0 <= j < i ==> lower(#[trigger] l@[j]) == lower(p@[j]),
        decreases p.len() - i,
    {
        if lower_byte(l[i]) != lower_byte(p[i]) {
            assert(l@.take(p@.len() as int)[i as int] == l@[i as int]);
            return None;
        }
        i = i + 1;
    }
    let (_, rest) = line.split_at(p.len());
    proof {
        assert(encode_utf8(rest@) =~= l@.skip(p@.len() as int));
        encode_utf8_decode_utf8(rest@);
    }
    Some(rest)
}

/// What the lines of a request have told so far.
pub struct RequestHead {
    method: String,
    path: String,
    query: Table<String>,
    content_length: usize,
    header_bytes: usize,
}

/// What a `RequestHead` holds.
pub struct HeadView {
    pub method: Seq<char>,
    pub path: Seq<char>,
    pub query: table::Pairs<Seq<char>>,
    pub content_length: nat,
    /// The bytes of the lines so far.
    pub header_bytes: nat,
}

impl View for RequestHead {
    type V = HeadView;

    closed spec fn view(&self) -> HeadView {
        HeadView {
            method: self.method@,
            path: self.path@,
            query: self.query@,
            content_length: self.content_length as nat,
            header_bytes: self.header_bytes as nat,
        }
    }
}

/// What a header line leads to.
#[derive(Debug, Clone, Copy, PartialEq, Eq, Structural)]
pub enum HeaderStep {
    /// Read the next line.
    More,
    /// The head is complete.
    End,
    /// The head is too long: give the connection up.
    TooLong,
}

/// The words of a line, by number; empty where there are fewer.
pub open spec fn word(line: Seq<char>, i: int) -> Seq<char> {
    if 0 <= i < text::words(line).len() {
        text::words(line)[i]
    } else {
        seq![]
    }
}

/// The number of bytes that a `Content-Length` announces; zero when it is no
/// number.
pub open spec fn announced(value: Seq<char>) -> nat {
    match text::number_of(text::trim(value)) {
        Some(n) if n <= usize::MAX => n,
        _ => 0,
    }
}

impl HeadView {
    /// What the request line tells.
    pub open spec fn started(line: Seq<char>) -> HeadView {
        let (path, query) = target_parts(word(line, 1));
        HeadView {
            method: word(line, 0),
            path,
            query,
            content_length: 0,
            header_bytes: encode_utf8(line).len(),
        }
    }

    /// What one more line adds.
    pub open spec fn fed(self, line: Seq<char>) -> (HeaderStep, HeadView) {
        let header_bytes = self.header_bytes + encode_utf8(line).len();
        if header_bytes > MAX_HEADER_BYTES {
            (HeaderStep::TooLong, self)
        } else if line == "\r\n"@ || line == "\n"@ {
            (HeaderStep::End, HeadView { header_bytes, ..self })
        } else {
            match after_prefix(line, "content-length:"@) {
                Some(value) => (
                    HeaderStep::More,
                    HeadView { header_bytes, content_length: announced(value), ..self },
                ),
                None => (HeaderStep::More, HeadView { header_bytes, ..self }),
            }
        }
    }
}

impl RequestHead {
    /// Reads the request line. It is taken whatever its length: the length of
    /// the head is checked with the lines that follow.
    pub fn start(line: &str) -> (r: RequestHead)
        ensures
            r@ == HeadView::started(line@),
    {
        let words = text::words_of(line);
        let method = if words.len() > 0 {
            words[0].clone()
        } else {
            String::new()
        };
        let raw = if words.len() > 1 {
            words[1].clone()
        } else {
            String::new()
        };
        assert(method@ =~= word(line@, 0));
        assert(raw@ =~= word(line@, 1));
        let (path, query) = split_query(raw.as_str());
        RequestHead {
            method,
            path,
            query,
            content_length: 0,
            header_bytes: line.as_bytes().len(),
        }
    }

    /// Reads a line after the request line.
    pub fn header(&mut self, line: &str) -> (r: HeaderStep)
        ensures
            (r, final(self)@) == old(self)@.fed(line@),
    {
        let n = line.as_bytes().len();
        if n > MAX_HEADER_BYTES || self.header_bytes > MAX_HEADER_BYTES - n {
            return HeaderStep::TooLong;
        }
        self.header_bytes = self.header_bytes + n;
        if text::same_text(line, "\r\n") || text::same_text(line, "\n") {
            return HeaderStep::End;
        }
        if let Some(value) = strip_header(line, "content-length:") {
            self.content_length = match text::parse_number(text::trim_text(value).as_str()) {
                Some(n) => if n <= usize::MAX as u64 {
                    n as usize
                } else {
                    0
                },
                None => 0,
            };
        }
        HeaderStep::More
    }

    /// How many bytes of body to read, or `None` when there are too many and the
    /// connection is to be given up.
    pub fn body_len(&self) -> (r: Option<usize>)
        ensures
            match r {
                Some(n) => n == self@.content_length && n <= MAX_BODY_BYTES,
                None => self@.content_length > MAX_BODY_BYTES,
            },
            r is Some <==> self@.content_length <= 65536,
    {
        if self.content_length > MAX_BODY_BYTES {
            None
        } else {
            Some(self.content_length)
        }
    }

    /// The request, with the body that was read.
    pub fn finish(self, body: Vec<u8>) -> (r: Request)
        ensures
            r@ == (RequestView {
                method: self@.method,
                path: self@.path,
                query: self@.query,
                body: body@,
            }),
    {
        Request { method: self.method, path: self.path, query: self.query, body }
    }
}

// ---------------------------------------------------------------------------
// Routes
// ---------------------------------------------------------------------------

/// What a request asks of a port.
#[derive(Debug)]
pub enum Action {
    Describe,
    SwitchScenario,
    FireTrigger(String),
    ReadRaw,
    ClearRaw,
    /// The events after the given id.
    ReadEvents(u64),
    ClearEvents,
}

/// What a request asks for.
#[derive(Debug)]
pub enum Route {
    ListPorts,
    Port(String, Action),
    NotFound,
}

/// What an `Action` holds.
pub enum ActionView {
    Describe,
    SwitchScenario,
    FireTrigger(Seq<char>),
    ReadRaw,
    ClearRaw,
    ReadEvents(u64),
    ClearEvents,
}

/// What a `Route` holds.
pub enum RouteView {
    ListPorts,
    Port(Seq<char>, ActionView),
    NotFound,
}

impl View for Action {
    type V = ActionView;

    open spec fn view(&self) -> ActionView {
        match self {
            Action::Describe => ActionView::Describe,
            Action::SwitchScenario => ActionView::SwitchScenario,
            Action::FireTrigger(trigger) => ActionView::FireTrigger(trigger@),
            Action::ReadRaw => ActionView::ReadRaw,
            Action::ClearRaw => ActionView::ClearRaw,
            Action::ReadEvents(since) => ActionView::ReadEvents(*since),
            Action::ClearEvents => ActionView::ClearEvents,
        }
    }
}

impl View for Route {
    type V = RouteView;

    open spec fn view(&self) -> RouteView {
        match self {
            Route::ListPorts => RouteView::ListPorts,
            Route::Port(name, action) => RouteView::Port(name@, action@),
            Route::NotFound => RouteView::NotFound,
        }
    }
}

/// The id that a query asks to start after; zero when it names none.
pub open spec fn since_of(query: table::Pairs<Seq<char>>) -> u64 {
    match table::lookup(query, "since"@) {
        Some(value) => match text::number_of(value) {
            Some(n) if n <= u64::MAX => n as u64,
            _ => 0,
        },
        None => 0,
    }
}

/// The parts of a path between the slashes, leading slashes left out.
pub open spec fn segments(path: Seq<char>) -> Seq<Seq<char>> {
    text::split(text::strip_leading(path, '/'), '/')
}

/// What a request asks for, by its method and its path.
pub open spec fn routed(request: RequestView) -> RouteView {
    let parts = segments(request.path);
    let get = request.method == "GET"@;
    let post = request.method == "POST"@;
    let delete = request.method == "DELETE"@;
    if parts[0] != "ports"@ {
        RouteView::NotFound
    } else if parts.len() == 1 {
        if get {
            RouteView::ListPorts
        } else {
            RouteView::NotFound
        }
    } else if parts.len() == 2 && get {
        RouteView::Port(parts[1], ActionView::Describe)
    } else if parts.len() == 3 && post && parts[2] == "scenario"@ {
        RouteView::Port(parts[1], ActionView::SwitchScenario)
    } else if parts.len() == 4 && post && parts[2] == "triggers"@ {
        RouteView::Port(parts[1], ActionView::FireTrigger(parts[3]))
    } else if parts.len() == 4 && parts[2] == "capture"@ && parts[3] == "raw"@ && get {
        RouteView::Port(parts[1], ActionView::ReadRaw)
    } else if parts.len() == 4 && parts[2] == "capture"@ && parts[3] == "raw"@ && delete {
        RouteView::Port(parts[1], ActionView::ClearRaw)
    } else if parts.len() == 4 && parts[2] == "capture"@ && parts[3] == "events"@ && get {
        RouteView::Port(parts[1], ActionView::ReadEvents(since_of(request.query)))
    } else if parts.len() == 4 && parts[2] == "capture"@ && parts[3] == "events"@ && delete {
        RouteView::Port(parts[1], ActionView::ClearEvents)
    } else {
        RouteView::NotFound
    }
}

fn since_in(query: &Table<String>) -> (r: u64)
    ensures
        r == since_of(query@),
{
    match query.get("since") {
        Some(value) => match text::parse_number(value.as_str()) {
            Some(n) => n,
            None => 0,
        },
        None => 0,
    }
}

/// Says what a request asks for.
pub fn route(request: &Request) -> (r: Route)
    ensures
        r@ == routed(request@),
{
    let parts = text::split_text(
        text::strip_leading_text(request.path.as_str(), '/').as_str(),
        '/',
    );
    let ghost all = segments(request@.path);
    assert(all.len() == parts.len());
    assert(forall|i: int| 0 <= i < parts.len() ==> all[i] == (#[trigger] parts@[i])@);
    let method = request.method.as_str();
    let get = text::same_text(method, "GET");
    let post = text::same_text(method, "POST");
    let delete = text::same_text(method, "DELETE");
    proof {
        reveal_strlit("GET");
        reveal_strlit("POST");
        reveal_strlit("DELETE");
    }
    assert("GET"@.len() == 3 && "POST"@.len() == 4 && "DELETE"@.len() == 6);
    if !text::same_text(parts[0].as_str(), "ports") {
        return Route::NotFound;
    }
    if parts.len() == 1 {
        if get {
            return Route::ListPorts;
        }
        return Route::NotFound;
    }
    let name = parts[1].clone();
    if parts.len() == 2 && get {
        return Route::Port(name, Action::Describe);
    }
    if parts.len() == 3 && post && text::same_text(parts[2].as_str(), "scenario") {
        return Route::Port(name, Action::SwitchScenario);
    }
    if parts.len() != 4 {
        return Route::NotFound;
    }
    if post && text::same_text(parts[2].as_str(), "triggers") {
        return Route::Port(name, Action::FireTrigger(parts[3].clone()));
    }
    if !text::same_text(parts[2].as_str(), "capture") {
        return Route::NotFound;
    }
    let raw = text::same_text(parts[3].as_str(), "raw");
    let events = text::same_text(parts[3].as_str(), "events");
    if raw && get {
        Route::Port(name, Action::ReadRaw)
    } else if raw && delete {
        Route::Port(name, Action::ClearRaw)
    } else if events && get {
        Route::Port(name, Action::ReadEvents(since_in(&request.query)))
    } else if events && delete {
        Route::Port(name, Action::ClearEvents)
    } else {
        Route::NotFound
    }
}

// ---------------------------------------------------------------------------
// Replies
// ---------------------------------------------------------------------------

/// A reply.
#[derive(Debug)]
pub struct Response {
    pub status: u16,
    pub reason: String,
    pub content_type: String,
    pub body: Vec<u8>,
}

/// What a `Response` holds.
pub struct ResponseView {
    pub status: u16,
    pub reason: Seq<char>,
    pub content_type: Seq<char>,
    pub body: Seq<u8>,
}

impl View for Response {
    type V = ResponseView;

    open spec fn view(&self) -> ResponseView {
        ResponseView {
            status: self.status,
            reason: self.reason@,
            content_type: self.content_type@,
            body: self.body@,
        }
    }
}

impl ResponseView {
    /// The head of the reply, with the empty line that ends it.
    pub open spec fn head(self) -> Seq<char> {
        "HTTP/1.1 "@ + text::decimal(self.status as nat) + " "@ + self.reason
            + "\r\nContent-Type: "@ + self.content_type + "\r\nContent-Length: "@ + text::decimal(
            self.body.len(),
        ) + "\r\nConnection: close\r\n\r\n"@
    }

    /// The reply as it is sent.
    pub open spec fn bytes(self) -> Seq<u8> {
        encode_utf8(self.head()) + self.body
    }

    /// The reason and the content type are ASCII, and each keeps to its line.
    pub open spec fn plain(self) -> bool {
        one_line(self.reason) && one_line(self.content_type)
    }
}

/// Whether a text is ASCII and holds no line feed.
pub open spec fn one_line(s: Seq<char>) -> bool {
    is_ascii_chars(s) && forall|i: int| 0 <= i < s.len() ==> #[trigger] s[i] != '\n'
}

impl Response {
    /// The reply as it is sent.
    pub fn to_bytes(&self) -> (r: Vec<u8>)
        ensures
            r@ == self@.bytes(),
    {
        let mut head = "HTTP/1.1 ".to_owned();
        text::push_decimal(&mut head, self.status as u64);
        head.append(" ");
        head.append(self.reason.as_str());
        head.append("\r\nContent-Type: ");
        head.append(self.content_type.as_str());
        head.append("\r\nContent-Length: ");
        text::push_decimal(&mut head, self.body.len() as u64);
        head.append("\r\nConnection: close\r\n\r\n");
        let mut out = head.as_str().as_bytes_vec();
        let mut body = self.body.clone();
        out.append(&mut body);
        out
    }
}

/// A JSON reply.
pub open spec fn json_reply(status: u16, reason: Seq<char>, body: Seq<char>) -> ResponseView {
    ResponseView {
        status,
        reason,
        content_type: "application/json"@,
        body: encode_utf8(body),
    }
}

/// The reply to what went well.
pub open spec fn ok_reply(body: Seq<char>) -> ResponseView {
    json_reply(200, "OK"@, body)
}

/// The reply about something that is not there.
pub open spec fn missing_reply(message: Seq<char>) -> ResponseView {
    json_reply(404, "Not Found"@, json::error_object(message))
}

fn respond_json(status: u16, reason: &str, body: &str) -> (r: Response)
    ensures
        r@ == json_reply(status, reason@, body@),
{
    Response {
        status,
        reason: reason.to_owned(),
        content_type: "application/json".to_owned(),
        body: body.as_bytes_vec(),
    }
}

fn respond_ok(body: &str) -> (r: Response)
    ensures
        r@ == ok_reply(body@),
{
    respond_json(200, "OK", body)
}

fn respond_missing(message: &str) -> (r: Response)
    ensures
        r@ == missing_reply(message@),
{
    respond_json(404, "Not Found", json::error_json(message).as_str())
}

/// What a request leads to.
#[derive(Debug)]
pub enum Outcome {
    /// Send the reply.
    Reply(Response),
    /// Write the bytes of the trigger to the port, then send the reply about
    /// how that went.
    Write { port: String, trigger: String, bytes: Vec<u8> },
}

/// What an `Outcome` holds.
pub enum OutcomeView {
    Reply(ResponseView),
    Write { port: Seq<char>, trigger: Seq<char>, bytes: Seq<u8> },
}

impl View for Outcome {
    type V = OutcomeView;

    open spec fn view(&self) -> OutcomeView {
        match self {
            Outcome::Reply(response) => OutcomeView::Reply(response@),
            Outcome::Write { port, trigger, bytes } => OutcomeView::Write {
                port: port@,
                trigger: trigger@,
                bytes: bytes@,
            },
        }
    }
}

/// How a port takes a request: the port afterwards, and what comes of it.
/// `payload` is the scenario that the body of the request names, if it names one.
pub open spec fn handled_by(
    p: port::PortView,
    action: ActionView,
    payload: Option<Seq<char>>,
) -> (port::PortView, OutcomeView) {
    match action {
        ActionView::Describe => (p, OutcomeView::Reply(ok_reply(json::port_detail(p)))),
        ActionView::SwitchScenario => match payload {
            None => (
                p,
                OutcomeView::Reply(
                    json_reply(
                        400,
                        "Bad Request"@,
                        json::error_object("expected {\"scenario\":\"name\"}"@),
                    ),
                ),
            ),
            Some(scenario) => match p.switched(scenario) {
                Ok(after) => (
                    after,
                    OutcomeView::Reply(ok_reply(json::switched_object(scenario))),
                ),
                Err(e) => (p, OutcomeView::Reply(missing_reply(e))),
            },
        },
        ActionView::FireTrigger(trigger) => (
            p,
            match port::triggered(p.scenario(), trigger) {
                Ok(bytes) => OutcomeView::Write { port: p.name, trigger, bytes },
                Err(e) => OutcomeView::Reply(missing_reply(e)),
            },
        ),
        ActionView::ReadRaw => (
            p,
            OutcomeView::Reply(
                ResponseView {
                    status: 200,
                    reason: "OK"@,
                    content_type: "application/octet-stream"@,
                    body: p.capture.raw,
                },
            ),
        ),
        ActionView::ClearRaw => (
            port::PortView {
                capture: capture::CaptureView { raw: seq![], ..p.capture },
                ..p
            },
            OutcomeView::Reply(ok_reply("{\"ok\":true}"@)),
        ),
        ActionView::ReadEvents(since) => (
            p,
            OutcomeView::Reply(
                ok_reply(json::event_list(p.capture.events.filter(capture::newer_than(since)))),
            ),
        ),
        ActionView::ClearEvents => (
            port::PortView {
                capture: capture::CaptureView { events: seq![], ..p.capture },
                ..p
            },
            OutcomeView::Reply(ok_reply("{\"ok\":true}"@)),
        ),
    }
}

/// How the service takes a request: the ports afterwards, and what comes of it.
pub open spec fn handled(
    ports: table::Pairs<port::PortView>,
    route: RouteView,
    payload: Option<Seq<char>>,
) -> (table::Pairs<port::PortView>, OutcomeView) {
    match route {
        RouteView::ListPorts => (
            ports,
            OutcomeView::Reply(ok_reply(json::port_list(table::values(ports)))),
        ),
        RouteView::NotFound => (ports, OutcomeView::Reply(missing_reply("not found"@))),
        RouteView::Port(name, action) => match table::lookup(ports, name) {
            None => (ports, OutcomeView::Reply(missing_reply("unknown port"@))),
            Some(p) => {
                let (after, outcome) = handled_by(p, action, payload);
                (table::inserted(ports, name, after), outcome)
            },
        },
    }
}

fn handle_by(state: &mut PortState, action: Action, payload: Option<String>) -> (r: Outcome)
    requires
        old(state)@.wf(),
    ensures
        (final(state)@, r@) == handled_by(old(state)@, action@, text::text_option(payload)),
        final(state)@.wf(),
        final(state)@.name == old(state)@.name,
{
    match action {
        Action::Describe => Outcome::Reply(
            respond_ok(json::port_detail_json(state).as_str()),
        ),
        Action::SwitchScenario => match payload {
            None => Outcome::Reply(
                respond_json(
                    400,
                    "Bad Request",
                    json::error_json("expected {\"scenario\":\"name\"}").as_str(),
                ),
            ),
            Some(scenario) => match state.switch_scenario(scenario.as_str()) {
                Ok(()) => Outcome::Reply(
                    respond_ok(json::switched_json(scenario.as_str()).as_str()),
                ),
                Err(e) => Outcome::Reply(respond_missing(e.as_str())),
            },
        },
        Action::FireTrigger(trigger) => match state.fire_trigger(trigger.as_str()) {
            Ok(bytes) => Outcome::Write { port: state.name().to_owned(), trigger, bytes },
            Err(e) => Outcome::Reply(respond_missing(e.as_str())),
        },
        Action::ReadRaw => Outcome::Reply(
            Response {
                status: 200,
                reason: "OK".to_owned(),
                content_type: "application/octet-stream".to_owned(),
                body: state.capture().raw_bytes(),
            },
        ),
        Action::ClearRaw => {
            state.clear_raw();
            Outcome::Reply(respond_ok("{\"ok\":true}"))
        },
        Action::ReadEvents(since) => Outcome::Reply(
            respond_ok(json::event_list_json(&state.capture().events_since(since)).as_str()),
        ),
        Action::ClearEvents => {
            state.clear_events();
            Outcome::Reply(respond_ok("{\"ok\":true}"))
        },
    }
}

impl Server {
    /// Takes a request. `payload` is the scenario that the body names, if the
    /// request is to switch the scenario and the body names one.
    pub fn handle(&mut self, request: &Request, payload: Option<String>) -> (r: Outcome)
        requires
            server::ports_wf(old(self).ports@),
        ensures
            (final(self).ports@, r@) == handled(
                old(self).ports@,
                routed(request@),
                text::text_option(payload),
            ),
            server::ports_wf(final(self).ports@),
    {
        proof {
            assert forall|name: Seq<char>| table::lookup(self.ports@, name) is Some implies (
            #[trigger] table::lookup(self.ports@, name))->0.wf() && table::lookup(
                self.ports@,
                name,
            )->0.name == name by {
                table::lemma_place(self.ports@, name);
            }
        }
        match route(request) {
            Route::ListPorts => {
                let ports = self.ports.values();
                assert forall|i: int| 0 <= i < ports@.len() implies (
                #[trigger] ports@[i])@.wf() by {
                    assert(server::port_views(ports@)[i] == self.ports@[i].1);
                }
                Outcome::Reply(respond_ok(json::port_list_json(&ports).as_str()))
            },
            Route::NotFound => Outcome::Reply(respond_missing("not found")),
            Route::Port(name, action) => match self.ports.get_mut(name.as_str()) {
                None => Outcome::Reply(respond_missing("unknown port")),
                Some(state) => handle_by(state, action, payload),
            },
        }
    }
}

/// The reply about a trigger, once it was fired or was not.
pub open spec fn fired_reply(
    trigger: Seq<char>,
    result: Result<Seq<u8>, Seq<char>>,
) -> ResponseView {
    match result {
        Ok(bytes) => ok_reply(
            json::fired_object(trigger, bytes.len(), outside::lossy_text(bytes)),
        ),
        Err(e) => missing_reply(e),
    }
}

/// The reply about a trigger that was fired or was not.
pub fn respond_fired(trigger: &str, result: Result<Vec<u8>, String>) -> (r: Response)
    ensures
        match result {
            Ok(bytes) => r@ == fired_reply(trigger@, Ok(bytes@)),
            Err(e) => r@ == fired_reply(trigger@, Err(e@)),
        },
{
    match result {
        Ok(bytes) => {
            let frame = outside::text_from_utf8_lossy(bytes.as_slice());
            respond_ok(json::fired_json(trigger, bytes.len(), frame.as_str()).as_str())
        },
        Err(e) => respond_missing(e.as_str()),
    }
}

// ---------------------------------------------------------------------------
// Laws
// ---------------------------------------------------------------------------

proof fn lemma_reinsert(ports: table::Pairs<port::PortView>, name: Seq<char>, p: port::PortView)
    requires
        table::lookup(ports, name) == Some(p),
    ensures
        table::inserted(ports, name, p) == ports,
{
    table::lemma_place(ports, name);
    assert(table::inserted(ports, name, p) =~= ports);
}

/// A request that is refused leaves every port as it was.
pub proof fn law_refusals_change_nothing(
    ports: table::Pairs<port::PortView>,
    route: RouteView,
    payload: Option<Seq<char>>,
)
    ensures
        handled(ports, route, payload).1 matches OutcomeView::Reply(response) && response.status
            >= 400 ==> handled(ports, route, payload).0 == ports,
{
    if let RouteView::Port(name, _) = route {
        if let Some(p) = table::lookup(ports, name) {
            lemma_reinsert(ports, name, p);
        }
    }
}

/// A `GET` request leaves every port as it was.
pub proof fn law_reads_change_nothing(
    ports: table::Pairs<port::PortView>,
    request: RequestView,
    payload: Option<Seq<char>>,
)
    requires
        request.method == "GET"@,
    ensures
        handled(ports, routed(request), payload).0 == ports,
{
    reveal_strlit("GET");
    reveal_strlit("POST");
    reveal_strlit("DELETE");
    assert("GET"@.len() == 3 && "POST"@.len() == 4 && "DELETE"@.len() == 6);
    if let RouteView::Port(name, _) = routed(request) {
        if let Some(p) = table::lookup(ports, name) {
            lemma_reinsert(ports, name, p);
        }
    }
}

/// A request about a port that does not exist is answered with 404, whatever
/// it asks for, and changes nothing.
pub proof fn law_unknown_port_is_refused(
    ports: table::Pairs<port::PortView>,
    name: Seq<char>,
    action: ActionView,
    payload: Option<Seq<char>>,
)
    requires
        table::lookup(ports, name) is None,
    ensures
        handled(ports, RouteView::Port(name, action), payload) == (
            ports,
            OutcomeView::Reply(missing_reply("unknown port"@)),
        ),
        missing_reply("unknown port"@).status == 404,
{
}

/// A request about one port leaves the others as they were. It neither adds nor
/// removes a port, and keeps every port well-formed.
pub proof fn law_requests_keep_to_their_port(
    ports: table::Pairs<port::PortView>,
    name: Seq<char>,
    action: ActionView,
    payload: Option<Seq<char>>,
    other: Seq<char>,
)
    requires
        server::ports_wf(ports),
    ensures
        ({
            let after = handled(ports, RouteView::Port(name, action), payload).0;
            &&& other != name ==> table::lookup(after, other) == table::lookup(ports, other)
            &&& table::names(after) == table::names(ports)
            &&& server::ports_wf(after)
        }),
{
    let after = handled(ports, RouteView::Port(name, action), payload).0;
    if let Some(p) = table::lookup(ports, name) {
        table::lemma_place(ports, name);
        table::law_insert_then_lookup(ports, name, handled_by(p, action, payload).0, other);
    }
    assert(table::names(after) =~= table::names(ports));
}

/// Switching a port to one of its scenarios makes that scenario the active one,
/// from which its triggers are taken from then on.
pub proof fn law_switch_takes_effect(
    ports: table::Pairs<port::PortView>,
    name: Seq<char>,
    scenario: Seq<char>,
    trigger: Seq<char>,
)
    requires
        server::ports_wf(ports),
        table::lookup(ports, name) is Some,
        table::lookup(table::lookup(ports, name)->0.compiled.scenarios, scenario) is Some,
    ensures
        ({
            let p = table::lookup(ports, name)->0;
            let (after, outcome) = handled(
                ports,
                RouteView::Port(name, ActionView::SwitchScenario),
                Some(scenario),
            );
            &&& outcome == OutcomeView::Reply(ok_reply(json::switched_object(scenario)))
            &&& table::lookup(after, name) == Some(port::PortView { active: scenario, ..p })
            &&& handled(after, RouteView::Port(name, ActionView::FireTrigger(trigger)), None).1
                == match port::triggered(
                table::lookup(p.compiled.scenarios, scenario)->0,
                trigger,
            ) {
                Ok(bytes) => OutcomeView::Write { port: name, trigger, bytes },
                Err(e) => OutcomeView::Reply(missing_reply(e)),
            }
        }),
{
    let p = table::lookup(ports, name)->0;
    table::lemma_place(ports, name);
    table::law_insert_then_lookup(
        ports,
        name,
        port::PortView { active: scenario, ..p },
        name,
    );
}

/// What was cleared reads as empty: no raw bytes, and no events whatever id the
/// reader starts after.
pub proof fn law_cleared_reads_empty(
    ports: table::Pairs<port::PortView>,
    name: Seq<char>,
    since: u64,
)
    requires
        table::lookup(ports, name) is Some,
    ensures
        ({
            let raw = handled(ports, RouteView::Port(name, ActionView::ClearRaw), None).0;
            let events = handled(ports, RouteView::Port(name, ActionView::ClearEvents), None).0;
            &&& handled(raw, RouteView::Port(name, ActionView::ReadRaw), None).1 matches OutcomeView::Reply(r)
                && r.status == 200 && r.body.len() == 0
            &&& handled(events, RouteView::Port(name, ActionView::ReadEvents(since)), None).1
                == OutcomeView::Reply(ok_reply("["@ + "]"@))
        }),
{
    let p = table::lookup(ports, name)->0;
    table::law_insert_then_lookup(
        ports,
        name,
        handled_by(p, ActionView::ClearRaw, None).0,
        name,
    );
    table::law_insert_then_lookup(
        ports,
        name,
        handled_by(p, ActionView::ClearEvents, None).0,
        name,
    );
    reveal(Seq::filter);
    let none = Seq::<capture::EventView>::empty().filter(capture::newer_than(since));
    assert(none =~= seq![]);
    assert(none.map_values(|e: capture::EventView| json::event_object(e)) =~= seq![]);
    assert("["@ + json::with_commas(seq![]) + "]"@ =~= "["@ + "]"@);
}

/// The bytes that a port received are what its raw capture reports, up to the
/// bound of the buffer; and a frame that was recorded is reported, with the rule
/// that answered it, to a reader who has seen everything before it, where events
/// are kept at all.
pub proof fn law_received_bytes_are_reported(
    p: port::PortView,
    chunk: Seq<u8>,
    ts_ms: u64,
    matched_rule: Option<Seq<char>>,
)
    requires
        p.wf(),
        p.capture.next_id < u64::MAX,
    ensures
        handled_by(
            port::PortView { capture: p.capture.with_raw(chunk), ..p },
            ActionView::ReadRaw,
            None,
        ).1 matches OutcomeView::Reply(response) && response.status == 200 && response.body
            == capture::latest(p.capture.raw + chunk, p.capture.max_raw),
        p.capture.max_events > 0 ==> handled_by(
            port::PortView {
                capture: p.capture.with_event(ts_ms, chunk, matched_rule),
                ..p
            },
            ActionView::ReadEvents((p.capture.next_id - 1) as u64),
            None,
        ).1 == OutcomeView::Reply(
            ok_reply(
                json::event_list(
                    seq![
                        capture::EventView {
                            id: p.capture.next_id as u64,
                            ts_ms,
                            data: chunk,
                            matched_rule,
                        },
                    ],
                ),
            ),
        ),
{
    if p.capture.max_events > 0 {
        capture::law_next_event_is_polled(p.capture, ts_ms, chunk, matched_rule);
    }
}

proof fn lemma_plain_words()
    ensures
        one_line("OK"@),
        one_line("Not Found"@),
        one_line("Bad Request"@),
        one_line("application/json"@),
        one_line("application/octet-stream"@),
{
    reveal_strlit("OK");
    reveal_strlit("Not Found");
    reveal_strlit("Bad Request");
    reveal_strlit("application/json");
    reveal_strlit("application/octet-stream");
}

/// Every reply, whatever was asked and whatever came of it, has a plain head:
/// nothing that a client sent gets into it.
pub proof fn law_replies_are_plain(
    ports: table::Pairs<port::PortView>,
    route: RouteView,
    payload: Option<Seq<char>>,
    trigger: Seq<char>,
    result: Result<Seq<u8>, Seq<char>>,
)
    ensures
        handled(ports, route, payload).1 matches OutcomeView::Reply(response) ==> response.plain(),
        fired_reply(trigger, result).plain(),
{
    lemma_plain_words();
}

/// A query value without `%` and `+` is taken as it is written.
pub proof fn law_plain_text_decodes_to_itself(s: Seq<char>)
    requires
        forall|i: int|
            0 <= i < encode_utf8(s).len() ==> #[trigger] encode_utf8(s)[i] != 37 && encode_utf8(s)[i]
                != 43,
    ensures
        url_decoded(s) == s,
{
    lemma_plain_bytes(encode_utf8(s));
    encode_utf8_valid_utf8(s);
    encode_utf8_decode_utf8(s);
}

proof fn lemma_plain_bytes(s: Seq<u8>)
    requires
        forall|i: int| 0 <= i < s.len() ==> #[trigger] s[i] != 37 && s[i] != 43,
    ensures
        percent_decoded(s) == s,
    decreases s.len(),
{
    if s.len() > 0 {
        let rest = s.skip(1);
        assert forall|i: int| 0 <= i < rest.len() implies #[trigger] rest[i] != 37 && rest[i]
            != 43 by {
            assert(rest[i] == s[i + 1]);
        }
        lemma_plain_bytes(rest);
        assert(s[0] != 37 && s[0] != 43);
        assert(seq![s[0]] + rest =~= s);
    } else {
        assert(percent_decoded(s) =~= s);
    }
}

/// A hexadecimal digit as a byte, in either case.
pub open spec fn digit_byte(d: nat, upper: bool) -> u8 {
    if d < 10 {
        (48 + d) as u8
    } else if upper {
        (55 + d) as u8
    } else {
        (87 + d) as u8
    }
}

/// Percent-encoding is decoded from the left: `%` and two hexadecimal digits, in
/// either case, are the byte of that value, `+` is a space, and any other byte is
/// itself, a `%` before anything but two digits, or a `+` and one, among them.
pub proof fn law_percent_escapes(
    high: nat,
    low: nat,
    upper_high: bool,
    upper_low: bool,
    b: u8,
    rest: Seq<u8>,
)
    requires
        high < 16,
        low < 16,
    ensures
        percent_decoded(
            seq![37u8, digit_byte(high, upper_high), digit_byte(low, upper_low)] + rest,
        ) == seq![(16 * high + low) as u8] + percent_decoded(rest),
        percent_decoded(seq![43u8] + rest) == seq![32u8] + percent_decoded(rest),
        b != 37 && b != 43 ==> percent_decoded(seq![b] + rest) == seq![b] + percent_decoded(rest),
        rest.len() < 2 ==> percent_decoded(seq![37u8] + rest) == seq![37u8] + percent_decoded(rest),
        rest.len() >= 2 && !(48 <= rest[1] <= 57 || 65 <= rest[1] <= 70 || 97 <= rest[1] <= 102)
            ==> percent_decoded(seq![37u8] + rest) == seq![37u8] + percent_decoded(rest),
        rest.len() >= 2 && rest[0] != 43 && !(48 <= rest[0] <= 57 || 65 <= rest[0] <= 70 || 97
            <= rest[0] <= 102) ==> percent_decoded(seq![37u8] + rest) == seq![37u8]
            + percent_decoded(rest),
        percent_decoded(Seq::<u8>::empty()).len() == 0,
{
    let escape = seq![37u8, digit_byte(high, upper_high), digit_byte(low, upper_low)] + rest;
    assert(escape.skip(3) =~= rest);
    assert((seq![43u8] + rest).skip(1) =~= rest);
    assert((seq![b] + rest).skip(1) =~= rest);
    assert((seq![37u8] + rest).skip(1) =~= rest);
}

/// A request target is its path, up to the first `?`, and the query after it. In
/// the query, a part `key=value` gives the key that value, once both are decoded,
/// whatever an earlier part gave it, and leaves the other keys as they were; a
/// part without `=` gives an empty value, and an empty part gives nothing.
pub proof fn law_later_query_values_count(
    path: Seq<char>,
    before: Seq<char>,
    key: Seq<char>,
    value: Seq<char>,
    other: Seq<char>,
)
    requires
        forall|i: int| 0 <= i < path.len() ==> #[trigger] path[i] != '?',
        forall|i: int| 0 <= i < key.len() ==> #[trigger] key[i] != '=' && key[i] != '&',
        forall|i: int| 0 <= i < value.len() ==> #[trigger] value[i] != '&',
    ensures
        target_parts(path) == (path, Seq::<(Seq<char>, Seq<char>)>::empty()),
        ({
            let old_query = target_parts(path + seq!['?'] + before);
            let new_query = target_parts(
                path + seq!['?'] + (before + seq!['&'] + (key + seq!['='] + value)),
            );
            &&& new_query.0 == path
            &&& table::lookup(new_query.1, url_decoded(key)) == Some(url_decoded(value))
            &&& other != url_decoded(key) ==> table::lookup(new_query.1, other) == table::lookup(
                old_query.1,
                other,
            )
        }),
        key.len() > 0 ==> table::lookup(
            target_parts(path + seq!['?'] + (before + seq!['&'] + key)).1,
            url_decoded(key),
        ) == Some(url_decoded(Seq::<char>::empty())),
        target_parts(path + seq!['?'] + (before + seq!['&'])).1 == target_parts(
            path + seq!['?'] + before,
        ).1,
{
    let pair = key + seq!['='] + value;
    text::lemma_split_step(path, '?', before);
    text::lemma_split_step(path, '?', before + seq!['&'] + pair);
    text::lemma_split_step(path, '?', before + seq!['&'] + key);
    text::lemma_split_step(path, '?', before + seq!['&']);
    text::lemma_split_step(key, '=', value);
    let empty = Seq::<char>::empty();
    assert(before + seq!['&'] + empty =~= before + seq!['&']);
    assert forall|i: int| 0 <= i < pair.len() implies #[trigger] pair[i] != '&' by {
        if i < key.len() {
            assert(pair[i] == key[i]);
        } else if i > key.len() {
            assert(pair[i] == value[i - key.len() - 1]);
        }
    }
    text::lemma_split_last(before, '&', pair);
    text::lemma_split_last(before, '&', key);
    text::lemma_split_last(before, '&', empty);
    let parts = text::split(before, '&');
    assert(parts.push(pair).drop_last() =~= parts);
    assert(parts.push(key).drop_last() =~= parts);
    assert(parts.push(empty).drop_last() =~= parts);
    table::law_insert_then_lookup(query_pairs(parts), url_decoded(key), url_decoded(value), other);
    table::law_insert_then_lookup(query_pairs(parts), url_decoded(key), url_decoded(empty), other);
}

/// Whether two ASCII characters are the same but for the case of a letter.
pub open spec fn same_letter(a: char, b: char) -> bool {
    ||| a == b
    ||| 'a' <= a && a <= 'z' && b as nat == a as nat - 32
    ||| 'a' <= b && b <= 'z' && a as nat == b as nat - 32
}

proof fn lemma_same_letter(a: char, b: char)
    requires
        same_letter(a, b),
        b as nat <= 127,
    ensures
        '\0' <= a <= '\u{7f}',
        lower(a as u8) == lower(b as u8),
{
}

/// The name of a header counts in whatever case it is written, and what follows it
/// is its value.
pub proof fn law_header_name_in_any_case(name: Seq<char>, prefix: Seq<char>, rest: Seq<char>)
    requires
        is_ascii_chars(prefix),
        name.len() == prefix.len(),
        forall|i: int| 0 <= i < name.len() ==> same_letter(#[trigger] name[i], prefix[i]),
    ensures
        after_prefix(name + rest, prefix) == Some(rest),
{
    let n = name.len() as int;
    let line = name + rest;
    let l = encode_utf8(line);
    assert forall|i: int| 0 <= i < n implies '\0' <= #[trigger] name[i] <= '\u{7f}' by {
        assert(same_letter(name[i], prefix[i]));
        assert('\0' <= prefix[i] <= '\u{7f}');
        lemma_same_letter(name[i], prefix[i]);
    }
    assert(is_ascii_chars(name));
    is_ascii_chars_encode_utf8(name);
    is_ascii_chars_encode_utf8(prefix);
    text::lemma_encode_joined(name, rest);
    encode_utf8_valid_utf8(line);
    encode_utf8_valid_utf8(rest);
    let r = encode_utf8(rest);
    if r.len() > 0 {
        is_char_boundary_start_end_of_seq(r);
        is_char_boundary_iff_not_is_continuation_byte(r, 0);
        assert(l[n] == r[0]);
        is_char_boundary_iff_not_is_continuation_byte(l, n);
    } else {
        is_char_boundary_start_end_of_seq(l);
    }
    let head = l.take(n);
    assert(head =~= encode_utf8(name));
    assert forall|i: int| 0 <= i < n implies lower(#[trigger] head[i]) == lower(
        encode_utf8(prefix)[i],
    ) by {
        assert(same_letter(name[i], prefix[i]));
        assert('\0' <= prefix[i] <= '\u{7f}');
        lemma_same_letter(name[i], prefix[i]);
        assert(encode_utf8(name)[i] == name[i] as u8);
        assert(encode_utf8(prefix)[i] == prefix[i] as u8);
    }
    assert(l.skip(n) =~= r);
    encode_utf8_decode_utf8(rest);
}

/// A head of more than 16384 bytes is given up; an empty line ends it; any other
/// line is counted and read on from. No line changes what the request line told.
pub proof fn law_head_is_limited(head: HeadView, line: Seq<char>)
    ensures
        ({
            let (step, after) = head.fed(line);
            let total = head.header_bytes + encode_utf8(line).len();
            let ends = line == seq!['\r', '\n'] || line == seq!['\n'];
            &&& step == HeaderStep::TooLong <==> total > 16384
            &&& step == HeaderStep::End <==> total <= 16384 && ends
            &&& total <= 16384 ==> after.header_bytes == total
            &&& after.method == head.method
            &&& after.path == head.path
            &&& after.query == head.query
        }),
{
    reveal_strlit("\r\n");
    reveal_strlit("\n");
    assert("\r\n"@ =~= seq!['\r', '\n']);
    assert("\n"@ =~= seq!['\n']);
}

/// The length of the body is the number on the line that is named `Content-Length`,
/// in whatever case, where the head is not too long.
pub proof fn law_content_length_is_taken(head: HeadView, name: Seq<char>, n: nat)
    requires
        name.len() == 15,
        forall|i: int|
            0 <= i < 15 ==> same_letter(#[trigger] name[i], "content-length:"@[i]),
        n <= usize::MAX,
        head.header_bytes + encode_utf8(name + (seq![' '] + text::decimal(n) + seq!['\r', '\n'])).len()
            <= 16384,
    ensures
        ({
            let line = name + (seq![' '] + text::decimal(n) + seq!['\r', '\n']);
            head.fed(line).0 == HeaderStep::More && head.fed(line).1.content_length == n
        }),
{
    let d = text::decimal(n);
    let value = seq![' '] + d + seq!['\r', '\n'];
    reveal_strlit("content-length:");
    assert(is_ascii_chars("content-length:"@));
    law_header_name_in_any_case(name, "content-length:"@, value);
    text::lemma_decimal_is_one_word(n);
    assert('0' <= d[0] && d[0] <= '9');
    assert('0' <= d[d.len() - 1] && d[d.len() - 1] <= '9');
    text::lemma_trim_line(d);
    text::law_decimal_is_read_back(n);
    reveal_strlit("\r\n");
    reveal_strlit("\n");
    assert((name + value).len() > 15);
}

/// Every request that is served has the method and the path of what it is served
/// as: there is no other way to list or describe ports, to switch a scenario, to
/// fire a trigger, or to read or clear what was captured.
pub proof fn law_only_these_requests_are_served(request: RequestView)
    ensures
        ({
            let path = text::strip_leading(request.path, '/');
            let slash = seq!['/'];
            match routed(request) {
                RouteView::NotFound => true,
                RouteView::ListPorts => request.method == "GET"@ && path == "ports"@,
                RouteView::Port(port, ActionView::Describe) => request.method == "GET"@ && path
                    == "ports"@ + slash + port,
                RouteView::Port(port, ActionView::SwitchScenario) => request.method == "POST"@
                    && path == "ports"@ + slash + (port + slash + "scenario"@),
                RouteView::Port(port, ActionView::FireTrigger(trigger)) => request.method
                    == "POST"@ && path == "ports"@ + slash + (port + slash + ("triggers"@ + slash
                    + trigger)),
                RouteView::Port(port, ActionView::ReadRaw) => request.method == "GET"@ && path
                    == "ports"@ + slash + (port + slash + ("capture"@ + slash + "raw"@)),
                RouteView::Port(port, ActionView::ClearRaw) => request.method == "DELETE"@ && path
                    == "ports"@ + slash + (port + slash + ("capture"@ + slash + "raw"@)),
                RouteView::Port(port, ActionView::ReadEvents(_)) => request.method == "GET"@
                    && path == "ports"@ + slash + (port + slash + ("capture"@ + slash
                    + "events"@)),
                RouteView::Port(port, ActionView::ClearEvents) => request.method == "DELETE"@
                    && path == "ports"@ + slash + (port + slash + ("capture"@ + slash
                    + "events"@)),
            }
        }),
{
    let path = text::strip_leading(request.path, '/');
    let parts = segments(request.path);
    text::law_split_is_joined_back(path, '/');
    lemma_rejoined(parts);
}

proof fn lemma_rejoined(parts: Seq<Seq<char>>)
    ensures
        ({
            let slash = seq!['/'];
            let all = text::rejoined(parts, '/');
            &&& parts.len() == 1 ==> all == parts[0]
            &&& parts.len() == 2 ==> all == parts[0] + slash + parts[1]
            &&& parts.len() == 3 ==> all == parts[0] + slash + (parts[1] + slash + parts[2])
            &&& parts.len() == 4 ==> all == parts[0] + slash + (parts[1] + slash + (parts[2] + slash
                + parts[3]))
        }),
{
    let p1 = parts.skip(1);
    let p2 = p1.skip(1);
    let p3 = p2.skip(1);
    assert(parts.len() == 4 ==> text::rejoined(p3, '/') == p3[0]);
    assert(parts.len() == 3 ==> text::rejoined(p2, '/') == p2[0]);
    assert(parts.len() == 4 ==> text::rejoined(p2, '/') == p2[0] + seq!['/'] + text::rejoined(
        p3,
        '/',
    ));
    assert(parts.len() == 2 ==> text::rejoined(p1, '/') == p1[0]);
    assert(parts.len() > 2 ==> text::rejoined(p1, '/') == p1[0] + seq!['/'] + text::rejoined(
        p2,
        '/',
    ));
}

/// A reader of events starts after the number that the query gives, and from the
/// beginning where it gives none or none that is a number.
pub proof fn law_since_is_taken_from_the_query(query: table::Pairs<Seq<char>>, n: nat)
    requires
        n <= u64::MAX,
    ensures
        table::lookup(query, "since"@) == Some(text::decimal(n)) ==> since_of(query) == n,
        table::lookup(query, "since"@) is None ==> since_of(query) == 0,
        table::lookup(query, "since"@) matches Some(value) && text::number_of(value) is None
            ==> since_of(query) == 0,
{
    text::law_decimal_is_read_back(n);
}

/// The head of a reply is the status line, the type and the length of the body,
/// that the connection is closed, and an empty line, each ended by a carriage
/// return and a line feed; the body follows as it is.
pub proof fn law_reply_head_lines(response: ResponseView)
    ensures
        ({
            let end = seq!['\r', '\n'];
            response.bytes() == encode_utf8(
                ("HTTP/1.1 "@ + text::decimal(response.status as nat) + " "@ + response.reason + end)
                    + ("Content-Type: "@ + response.content_type + end) + ("Content-Length: "@
                    + text::decimal(response.body.len()) + end) + ("Connection: close"@ + end)
                    + end,
            ) + response.body
        }),
{
    reveal_strlit("\r\nContent-Type: ");
    reveal_strlit("Content-Type: ");
    reveal_strlit("\r\nContent-Length: ");
    reveal_strlit("Content-Length: ");
    reveal_strlit("\r\nConnection: close\r\n\r\n");
    reveal_strlit("Connection: close");
    let end = seq!['\r', '\n'];
    assert("\r\nContent-Type: "@ =~= end + "Content-Type: "@);
    assert("\r\nContent-Length: "@ =~= end + "Content-Length: "@);
    assert("\r\nConnection: close\r\n\r\n"@ =~= end + ("Connection: close"@ + end) + end);
    let status = "HTTP/1.1 "@ + text::decimal(response.status as nat) + " "@ + response.reason;
    let kind = response.content_type;
    let length = text::decimal(response.body.len());
    lemma_head_lines(
        status,
        end,
        "Content-Type: "@,
        kind,
        "Content-Length: "@,
        length,
        "Connection: close"@,
    );
}

proof fn lemma_head_lines(
    a: Seq<char>,
    end: Seq<char>,
    b: Seq<char>,
    c: Seq<char>,
    d: Seq<char>,
    e: Seq<char>,
    f: Seq<char>,
)
    ensures
        a + (end + b) + c + (end + d) + e + (end + (f + end) + end) == (a + end) + (b + c + end) + (d
            + e + end) + (f + end) + end,
{
    let s1 = a + end;
    assert(a + (end + b) + c + (end + d) =~= s1 + (b + c + end) + d);
    let s2 = s1 + (b + c + end);
    assert(s2 + d + e + (end + (f + end) + end) =~= s2 + (d + e + end) + (f + end) + end);
}

/// What cannot be taken counts as nothing: text that does not decode to UTF-8 is
/// empty, and a length that is no number, or one that does not fit, is zero.
pub proof fn law_what_cannot_be_taken_is_nothing(s: Seq<char>)
    ensures
        !valid_utf8(percent_decoded(encode_utf8(s))) ==> url_decoded(s).len() == 0,
        valid_utf8(percent_decoded(encode_utf8(s))) ==> encode_utf8(url_decoded(s))
            == percent_decoded(encode_utf8(s)),
        text::number_of(text::trim(s)) is None ==> announced(s) == 0,
        text::number_of(text::trim(s)) matches Some(n) ==> announced(s) == if n <= usize::MAX {
            n
        } else {
            0
        },
        text::words(s).len() == 0 ==> HeadView::started(s).method.len() == 0
            && HeadView::started(s).path.len() == 0,
        HeadView::started(s).content_length == 0,
        HeadView::started(s).header_bytes == encode_utf8(s).len(),
{
    let decoded = percent_decoded(encode_utf8(s));
    if valid_utf8(decoded) {
        decode_utf8_encode_utf8(decoded);
    }
    if text::words(s).len() == 0 {
        text::lemma_run_len(Seq::<char>::empty(), text::other_than('?'));
    }
}

/// A header of another name is passed over: a line that differs from the name of the
/// header in more than the case of a letter has no value for it.
pub proof fn law_other_headers_have_no_value(line: Seq<char>, prefix: Seq<char>, at: int)
    requires
        is_ascii_chars(prefix),
        0 <= at < prefix.len(),
        at < line.len(),
        is_ascii_chars(line.take(at + 1)),
        !same_letter(line[at], prefix[at]),
    ensures
        after_prefix(line, prefix) is None,
{
    is_ascii_chars_encode_utf8(prefix);
    let front = line.take(at + 1);
    is_ascii_chars_encode_utf8(front);
    assert(line =~= front + line.skip(at + 1));
    text::lemma_encode_joined(front, line.skip(at + 1));
    let bytes = encode_utf8(line);
    assert(bytes[at] == encode_utf8(front)[at]);
    assert(front[at] == line[at]);
    assert('\0' <= front[at] <= '\u{7f}');
    assert('\0' <= prefix[at] <= '\u{7f}');
    lemma_other_letter(line[at], prefix[at]);
    let n = prefix.len() as int;
    if bytes.len() >= n && same_but_case(bytes.take(n), encode_utf8(prefix)) {
        assert(lower(bytes.take(n)[at]) == lower(encode_utf8(prefix)[at]));
    }
}

proof fn lemma_other_letter(a: char, b: char)
    requires
        '\0' <= a <= '\u{7f}',
        '\0' <= b <= '\u{7f}',
        !same_letter(a, b),
    ensures
        lower(a as u8) != lower(b as u8),
{
}

/// A line too short to hold the name of a header has no value for it.
pub proof fn law_short_lines_have_no_value(line: Seq<char>, prefix: Seq<char>)
    requires
        encode_utf8(line).len() < encode_utf8(prefix).len(),
    ensures
        after_prefix(line, prefix) is None,
{
}

} // verus!
