//! The JSON texts that the service replies with.
use crate::capture;
use crate::capture::Event;
use crate::port;
use crate::port::PortState;
use crate::text;
use vstd::prelude::*;

verus! {

// ---------------------------------------------------------------------------
// Escaping
// ---------------------------------------------------------------------------

/// The lower-case character of a hexadecimal digit.
pub open spec fn hex_char(d: nat) -> char {
    if d < 10 {
        ('0' as nat + d) as char
    } else {
        ('a' as nat + d - 10) as char
    }
}

/// How a character is written inside a JSON string.
pub open spec fn escaped_char(c: char) -> Seq<char> {
    if c == '"' {
        seq!['\\', '"']
    } else if c == '\\' {
        seq!['\\', '\\']
    } else if c == '\n' {
        seq!['\\', 'n']
    } else if c == '\r' {
        seq!['\\', 'r']
    } else if c == '\t' {
        seq!['\\', 't']
    } else if c <= '\u{1f}' {
        seq!['\\', 'u', '0', '0', hex_char(c as nat / 16), hex_char(c as nat % 16)]
    } else {
        seq![c]
    }
}

/// How a text is written inside a JSON string.
pub open spec fn escaped(s: Seq<char>) -> Seq<char>
    decreases s.len(),
{
    if s.len() == 0 {
        seq![]
    } else {
        escaped(s.drop_last()) + escaped_char(s.last())
    }
}

fn hex_digit_char(d: u8) -> (r: char)
    requires
        d < 16,
    ensures
        r == hex_char(d as nat),
{
    if d < 10 {
        (48 + d) as char
    } else {
        (97 + (d - 10)) as char
    }
}

fn push_escaped_char(out: &mut String, c: char)
    ensures
        final(out)@ == old(out)@ + escaped_char(c),
{
    if c == '"' {
        out.push('\\');
        out.push('"');
    } else if c == '\\' {
        out.push('\\');
        out.push('\\');
    } else if c == '\n' {
        out.push('\\');
        out.push('n');
    } else if c == '\r' {
        out.push('\\');
        out.push('r');
    } else if c == '\t' {
        out.push('\\');
        out.push('t');
    } else if c <= '\u{1f}' {
        let code: u8 = (c as u32) as u8;
        out.push('\\');
        out.push('u');
        out.push('0');
        out.push('0');
        out.push(hex_digit_char(code / 16));
        out.push(hex_digit_char(code % 16));
    } else {
        out.push(c);
    }
}

/// Escapes a text for use inside a JSON string.
pub fn json_escape(s: &str) -> (r: String)
    ensures
        r@ == escaped(s@),
{
    let chars = text::chars_of(s);
    let mut out = String::new();
    let mut i: usize = 0;
    while i < chars.len()
        invariant
            i <= chars.len(),
            chars@ == s@,
            out@ == escaped(s@.take(i as int)),
        decreases chars.len() - i,
    {
        assert(s@.take(i + 1).drop_last() =~= s@.take(i as int));
        push_escaped_char(&mut out, chars[i]);
        i = i + 1;
    }
    assert(s@.take(i as int) =~= s@);
    out
}

/// Two lower-case hexadecimal digits to a byte.
pub open spec fn hex_encoded(data: Seq<u8>) -> Seq<char>
    decreases data.len(),
{
    if data.len() == 0 {
        seq![]
    } else {
        hex_encoded(data.drop_last()).push(hex_char(data.last() as nat / 16)).push(
            hex_char(data.last() as nat % 16),
        )
    }
}

/// Writes bytes in hexadecimal.
pub fn hex_encode(data: &[u8]) -> (r: String)
    ensures
        r@ == hex_encoded(data@),
{
    let mut out = String::new();
    let mut i: usize = 0;
    while i < data.len()
        invariant
            i <= data.len(),
            out@ == hex_encoded(data@.take(i as int)),
        decreases data.len() - i,
    {
        assert(data@.take(i + 1).drop_last() =~= data@.take(i as int));
        out.push(hex_digit_char(data[i] / 16));
        out.push(hex_digit_char(data[i] % 16));
        i = i + 1;
    }
    assert(data@.take(i as int) =~= data@);
    out
}

// ---------------------------------------------------------------------------
// Replies
// ---------------------------------------------------------------------------

/// A text as a JSON string.
pub open spec fn quoted(s: Seq<char>) -> Seq<char> {
    "\""@ + escaped(s) + "\""@
}

/// The texts one after another, with commas between them.
pub open spec fn with_commas(items: Seq<Seq<char>>) -> Seq<char>
    decreases items.len(),
{
    if items.len() == 0 {
        seq![]
    } else if items.len() == 1 {
        items[0]
    } else {
        with_commas(items.drop_last()) + ","@ + items.last()
    }
}

/// A JSON array of the given items.
pub open spec fn array(items: Seq<Seq<char>>) -> Seq<char> {
    "["@ + with_commas(items) + "]"@
}

/// The names as JSON strings.
pub open spec fn quoted_all(names: Seq<Seq<char>>) -> Seq<Seq<char>> {
    names.map_values(|n: Seq<char>| quoted(n))
}

/// The members of a port that every reply about it starts with.
pub open spec fn port_members(p: port::PortView) -> Seq<char> {
    "{\"name\":"@ + quoted(p.name) + ",\"pty_path\":"@ + quoted(p.device_text())
        + ",\"active_scenario\":"@ + quoted(p.active) + ",\"scenarios\":"@ + array(
        quoted_all(p.compiled.order),
    )
}

/// The summary of a port: name, device path, active scenario, scenarios.
pub open spec fn port_summary(p: port::PortView) -> Seq<char> {
    port_members(p) + "}"@
}

/// The summary of a port, with the triggers and the number of rules of the
/// active scenario.
pub open spec fn port_detail(p: port::PortView) -> Seq<char> {
    port_members(p) + ",\"triggers\":"@ + array(
        quoted_all(crate::table::names(p.scenario().triggers)),
    ) + ",\"input_rule_count\":"@ + text::decimal(p.scenario().rules.len()) + "}"@
}

/// A captured event.
pub open spec fn event_object(e: capture::EventView) -> Seq<char> {
    "{\"id\":"@ + text::decimal(e.id as nat) + ",\"ts_ms\":"@ + text::decimal(e.ts_ms as nat)
        + ",\"data_hex\":\""@ + hex_encoded(e.data) + "\",\"matched_rule\":"@ + (
    match e.matched_rule {
        Some(rule) => quoted(rule),
        None => "null"@,
    }) + "}"@
}

/// The events, in order.
pub open spec fn event_list(events: Seq<capture::EventView>) -> Seq<char> {
    array(events.map_values(|e: capture::EventView| event_object(e)))
}

/// The summaries of the ports, in order.
pub open spec fn port_list(ports: Seq<port::PortView>) -> Seq<char> {
    array(ports.map_values(|p: port::PortView| port_summary(p)))
}

/// An error message.
pub open spec fn error_object(message: Seq<char>) -> Seq<char> {
    "{\"error\":"@ + quoted(message) + "}"@
}

/// What a switch of the scenario replies.
pub open spec fn switched_object(scenario: Seq<char>) -> Seq<char> {
    "{\"ok\":true,\"active_scenario\":"@ + quoted(scenario) + "}"@
}

/// What a trigger replies; `frame` is the text of the bytes that were sent.
pub open spec fn fired_object(trigger: Seq<char>, len: nat, frame: Seq<char>) -> Seq<char> {
    "{\"ok\":true,\"trigger\":"@ + quoted(trigger) + ",\"bytes\":"@ + text::decimal(len)
        + ",\"frame\":"@ + quoted(frame) + "}"@
}

fn push_quoted(out: &mut String, s: &str)
    ensures
        final(out)@ == old(out)@ + quoted(s@),
{
    let ghost before = out@;
    out.append("\"");
    out.append(json_escape(s).as_str());
    out.append("\"");
    assert(out@ =~= before + quoted(s@));
}

/// Appends an array of texts that are JSON already.
fn push_array(out: &mut String, items: &Vec<String>)
    ensures
        final(out)@ == old(out)@ + array(text::texts(items@)),
{
    let ghost before = out@;
    out.append("[");
    let ghost opened = out@;
    let ghost all = text::texts(items@);
    let mut i: usize = 0;
    assert(all.take(0) =~= seq![]);
    assert(opened + with_commas(all.take(0)) =~= opened);
    while i < items.len()
        invariant
            i <= items.len(),
            all == text::texts(items@),
            out@ == opened + with_commas(all.take(i as int)),
        decreases items.len() - i,
    {
        let ghost so_far = out@;
        assert(all.take(i + 1).drop_last() =~= all.take(i as int));
        assert(all.take(i + 1).last() == items@[i as int]@);
        if i > 0 {
            out.append(",");
            out.append(items[i].as_str());
            assert(out@ =~= opened + (with_commas(all.take(i as int)) + ","@ + items@[i as int]@));
        } else {
            out.append(items[i].as_str());
            assert(out@ =~= opened + items@[i as int]@);
            assert(all.take(i + 1)[0] == items@[i as int]@);
        }
        i = i + 1;
    }
    assert(all.take(i as int) =~= all);
    out.append("]");
    assert(out@ =~= before + array(all));
}

fn push_name_array(out: &mut String, names: &Vec<String>)
    ensures
        final(out)@ == old(out)@ + array(quoted_all(text::texts(names@))),
{
    let mut items: Vec<String> = Vec::new();
    let ghost all = quoted_all(text::texts(names@));
    let mut i: usize = 0;
    while i < names.len()
        invariant
            i <= names.len(),
            all == quoted_all(text::texts(names@)),
            text::texts(items@) == all.take(i as int),
        decreases names.len() - i,
    {
        let ghost so_far = text::texts(items@);
        let mut item = String::new();
        push_quoted(&mut item, names[i].as_str());
        assert(item@ =~= quoted(names@[i as int]@));
        items.push(item);
        assert(text::texts(items@) =~= so_far.push(all[i as int]));
        assert(all.take(i + 1) =~= so_far.push(all[i as int]));
        i = i + 1;
    }
    assert(all.take(i as int) =~= all);
    push_array(out, &items);
}

fn push_port_members(out: &mut String, state: &PortState)
    requires
        state@.wf(),
    ensures
        final(out)@ == old(out)@ + port_members(state@),
{
    let ghost before = out@;
    out.append("{\"name\":");
    push_quoted(out, state.name());
    out.append(",\"pty_path\":");
    push_quoted(out, state.device_path_str().as_str());
    out.append(",\"active_scenario\":");
    push_quoted(out, state.active().name.as_str());
    out.append(",\"scenarios\":");
    push_name_array(out, &state.compiled().scenario_order);
    assert(out@ =~= before + port_members(state@));
}

/// The summary of a port.
pub fn port_summary_json(state: &PortState) -> (r: String)
    requires
        state@.wf(),
    ensures
        r@ == port_summary(state@),
{
    let mut out = String::new();
    push_port_members(&mut out, state);
    out.append("}");
    assert(out@ =~= port_summary(state@));
    out
}

/// The details of a port.
pub fn port_detail_json(state: &PortState) -> (r: String)
    requires
        state@.wf(),
    ensures
        r@ == port_detail(state@),
{
    let scenario = state.active();
    let mut out = String::new();
    push_port_members(&mut out, state);
    out.append(",\"triggers\":");
    push_name_array(&mut out, &scenario.triggers.names());
    out.append(",\"input_rule_count\":");
    text::push_decimal(&mut out, scenario.input_rules.len() as u64);
    out.append("}");
    assert(scenario@.rules.len() == scenario.input_rules.len());
    assert(out@ =~= port_detail(state@));
    out
}

/// A list of ports.
pub fn port_list_json(ports: &Vec<&PortState>) -> (r: String)
    requires
        forall|i: int| 0 <= i < ports@.len() ==> (#[trigger] ports@[i])@.wf(),
    ensures
        r@ == port_list(crate::server::port_views(ports@)),
{
    let ghost all = crate::server::port_views(ports@).map_values(
        |p: port::PortView| port_summary(p),
    );
    let mut items: Vec<String> = Vec::new();
    let mut i: usize = 0;
    while i < ports.len()
        invariant
            i <= ports.len(),
            all == crate::server::port_views(ports@).map_values(
                |p: port::PortView| port_summary(p),
            ),
            forall|i: int| 0 <= i < ports@.len() ==> (#[trigger] ports@[i])@.wf(),
            text::texts(items@) == all.take(i as int),
        decreases ports.len() - i,
    {
        let ghost so_far = text::texts(items@);
        items.push(port_summary_json(ports[i]));
        assert(text::texts(items@) =~= so_far.push(all[i as int]));
        assert(all.take(i + 1) =~= so_far.push(all[i as int]));
        i = i + 1;
    }
    assert(all.take(i as int) =~= all);
    let mut out = String::new();
    push_array(&mut out, &items);
    assert(out@ =~= array(all));
    out
}

fn event_json(event: &Event) -> (r: String)
    ensures
        r@ == event_object(event@),
{
    let mut out = "{\"id\":".to_owned();
    text::push_decimal(&mut out, event.id);
    out.append(",\"ts_ms\":");
    text::push_decimal(&mut out, event.ts_ms);
    out.append(",\"data_hex\":\"");
    out.append(hex_encode(event.data.as_slice()).as_str());
    out.append("\",\"matched_rule\":");
    match &event.matched_rule {
        Some(rule) => push_quoted(&mut out, rule.as_str()),
        None => out.append("null"),
    }
    out.append("}");
    out
}

/// A list of events.
pub fn event_list_json(events: &Vec<Event>) -> (r: String)
    ensures
        r@ == event_list(capture::events_of(events@)),
{
    let ghost all = capture::events_of(events@).map_values(
        |e: capture::EventView| event_object(e),
    );
    let mut items: Vec<String> = Vec::new();
    let mut i: usize = 0;
    while i < events.len()
        invariant
            i <= events.len(),
            all == capture::events_of(events@).map_values(
                |e: capture::EventView| event_object(e),
            ),
            text::texts(items@) == all.take(i as int),
        decreases events.len() - i,
    {
        let ghost so_far = text::texts(items@);
        items.push(event_json(&events[i]));
        assert(text::texts(items@) =~= so_far.push(all[i as int]));
        assert(all.take(i + 1) =~= so_far.push(all[i as int]));
        i = i + 1;
    }
    assert(all.take(i as int) =~= all);
    let mut out = String::new();
    push_array(&mut out, &items);
    assert(out@ =~= array(all));
    out
}

/// An error message.
pub fn error_json(message: &str) -> (r: String)
    ensures
        r@ == error_object(message@),
{
    let mut out = "{\"error\":".to_owned();
    push_quoted(&mut out, message);
    out.append("}");
    out
}

/// What a switch of the scenario replies.
pub fn switched_json(scenario: &str) -> (r: String)
    ensures
        r@ == switched_object(scenario@),
{
    let mut out = "{\"ok\":true,\"active_scenario\":".to_owned();
    push_quoted(&mut out, scenario);
    out.append("}");
    out
}

/// What a trigger replies; `frame` is the text of the bytes that were sent.
pub fn fired_json(trigger: &str, len: usize, frame: &str) -> (r: String)
    ensures
        r@ == fired_object(trigger@, len as nat, frame@),
{
    let mut out = "{\"ok\":true,\"trigger\":".to_owned();
    push_quoted(&mut out, trigger);
    out.append(",\"bytes\":");
    text::push_decimal(&mut out, len as u64);
    out.append(",\"frame\":");
    push_quoted(&mut out, frame);
    out.append("}");
    out
}

// ---------------------------------------------------------------------------
// Laws
// ---------------------------------------------------------------------------

/// The text that the inside of a JSON string stands for, read from the left;
/// `None` when an escape is none of those that are written here, or a quote or
/// a control character stands by itself.
pub open spec fn unescaped(s: Seq<char>) -> Option<Seq<char>>
    decreases s.len(),
{
    if s.len() == 0 {
        Some(seq![])
    } else if s[0] == '\\' {
        if s.len() >= 6 && s[1] == 'u' {
            match (crate::bytes::hex_digit(s[4]), crate::bytes::hex_digit(s[5]), unescaped(s.skip(6))) {
                (Some(high), Some(low), Some(rest)) if s[2] == '0' && s[3] == '0' => Some(
                    seq![(high * 16 + low) as char] + rest,
                ),
                _ => None,
            }
        } else if s.len() >= 2 {
            match (simple_escape(s[1]), unescaped(s.skip(2))) {
                (Some(c), Some(rest)) => Some(seq![c] + rest),
                _ => None,
            }
        } else {
            None
        }
    } else if s[0] == '"' || s[0] <= '\u{1f}' {
        None
    } else {
        match unescaped(s.skip(1)) {
            Some(rest) => Some(seq![s[0]] + rest),
            None => None,
        }
    }
}

/// What a backslash and one more character stand for.
pub open spec fn simple_escape(c: char) -> Option<char> {
    if c == '"' || c == '\\' {
        Some(c)
    } else if c == 'n' {
        Some('\n')
    } else if c == 'r' {
        Some('\r')
    } else if c == 't' {
        Some('\t')
    } else {
        None
    }
}

proof fn lemma_hex_char(d: nat)
    requires
        d < 16,
    ensures
        crate::bytes::hex_digit(hex_char(d)) == Some(d as u8),
{
}

proof fn lemma_unescape_one(c: char, rest: Seq<char>)
    ensures
        unescaped(escaped_char(c) + rest) == (match unescaped(rest) {
            Some(u) => Some(seq![c] + u),
            None => None,
        }),
{
    let s = escaped_char(c) + rest;
    if c == '"' || c == '\\' || c == '\n' || c == '\r' || c == '\t' {
        assert(s.skip(2) =~= rest);
    } else if c <= '\u{1f}' {
        assert(s.skip(6) =~= rest);
        lemma_hex_char(c as nat / 16);
        lemma_hex_char(c as nat % 16);
        assert(c as nat == (c as nat / 16) * 16 + c as nat % 16);
    } else {
        assert(s.skip(1) =~= rest);
    }
}

proof fn lemma_unescape(s: Seq<char>, rest: Seq<char>)
    ensures
        unescaped(escaped(s) + rest) == (match unescaped(rest) {
            Some(u) => Some(s + u),
            None => None,
        }),
    decreases s.len(),
{
    if s.len() == 0 {
        assert(escaped(s) + rest =~= rest);
        if let Some(u) = unescaped(rest) {
            assert(s + u =~= u);
        }
    } else {
        let front = s.drop_last();
        let tail = escaped_char(s.last()) + rest;
        assert(escaped(s) + rest =~= escaped(front) + tail);
        lemma_unescape(front, tail);
        lemma_unescape_one(s.last(), rest);
        if let Some(u) = unescaped(rest) {
            assert(front + (seq![s.last()] + u) =~= s + u);
        }
    }
}

/// A reader of the JSON string gets back the text that was escaped: nothing in
/// it ends the string early, and no two texts are written alike.
pub proof fn law_escape_is_read_back(s: Seq<char>)
    ensures
        unescaped(escaped(s)) == Some(s),
{
    lemma_unescape(s, seq![]);
    assert(escaped(s) + Seq::<char>::empty() =~= escaped(s));
    assert(s + Seq::<char>::empty() =~= s);
}

proof fn lemma_escaped_char_is_one_line(c: char)
    ensures
        forall|i: int| 0 <= i < escaped_char(c).len() ==> #[trigger] escaped_char(c)[i] > '\u{1f}',
{
}

/// An escaped text holds no control characters, so a reply is one line.
pub proof fn law_escaped_is_one_line(s: Seq<char>)
    ensures
        forall|i: int| 0 <= i < escaped(s).len() ==> #[trigger] escaped(s)[i] > '\u{1f}',
    decreases s.len(),
{
    if s.len() > 0 {
        let front = escaped(s.drop_last());
        law_escaped_is_one_line(s.drop_last());
        assert forall|i: int| 0 <= i < escaped(s).len() implies #[trigger] escaped(s)[i]
            > '\u{1f}' by {
            if i < front.len() {
                assert(escaped(s)[i] == front[i]);
            } else {
                lemma_escaped_char_is_one_line(s.last());
                assert(escaped(s)[i] == escaped_char(s.last())[i - front.len()]);
            }
        }
    }
}

pub proof fn lemma_hex_encoded(data: Seq<u8>)
    ensures
        hex_encoded(data).len() == 2 * data.len(),
        forall|i: int|
            0 <= i < data.len() ==> hex_encoded(data)[2 * i] == hex_char(
                #[trigger] data[i] as nat / 16,
            ) && hex_encoded(data)[2 * i + 1] == hex_char(data[i] as nat % 16),
    decreases data.len(),
{
    if data.len() > 0 {
        lemma_hex_encoded(data.drop_last());
        assert forall|i: int| 0 <= i < data.len() implies hex_encoded(data)[2 * i] == hex_char(
            #[trigger] data[i] as nat / 16,
        ) && hex_encoded(data)[2 * i + 1] == hex_char(data[i] as nat % 16) by {
            if i < data.len() - 1 {
                assert(data.drop_last()[i] == data[i]);
            }
        }
    }
}

proof fn lemma_all_digits(s: Seq<char>)
    requires
        forall|i: int| 0 <= i < s.len() ==> crate::bytes::hex_digit(#[trigger] s[i]) is Some,
    ensures
        crate::bytes::hex_nibbles(s) == Ok::<Seq<u8>, char>(
            Seq::new(s.len(), |i: int| crate::bytes::hex_digit(s[i])->0),
        ),
    decreases s.len(),
{
    let all = Seq::new(s.len(), |i: int| crate::bytes::hex_digit(s[i])->0);
    if s.len() == 0 {
        assert(all =~= seq![]);
    } else {
        let rest = s.skip(1);
        assert forall|i: int| 0 <= i < rest.len() implies crate::bytes::hex_digit(
            #[trigger] rest[i],
        ) is Some by {
            assert(rest[i] == s[i + 1]);
        }
        lemma_all_digits(rest);
        assert(crate::bytes::hex_digit(s[0]) is Some);
        if s.len() > 1 {
            assert(crate::bytes::hex_digit(s[1]) is Some);
        }
        assert(all =~= seq![crate::bytes::hex_digit(s[0])->0] + Seq::new(
            rest.len(),
            |i: int| crate::bytes::hex_digit(rest[i])->0,
        ));
    }
}

proof fn lemma_hex_digits(data: Seq<u8>, k: int)
    requires
        0 <= k < data.len(),
    ensures
        hex_encoded(data).len() == 2 * data.len(),
        crate::bytes::hex_digit(hex_encoded(data)[2 * k]) == Some((data[k] as nat / 16) as u8),
        crate::bytes::hex_digit(hex_encoded(data)[2 * k + 1]) == Some((data[k] as nat % 16) as u8),
{
    lemma_hex_encoded(data);
    let b = data[k] as nat;
    lemma_hex_char(b / 16);
    lemma_hex_char(b % 16);
}

/// What the event log shows in hexadecimal is read back, as the hex form of a
/// byte literal, to the bytes that were captured.
pub proof fn law_hex_is_read_back(data: Seq<u8>)
    ensures
        crate::bytes::hex_decoded(hex_encoded(data)) == Ok::<Seq<u8>, Seq<char>>(data),
{
    let s = hex_encoded(data);
    lemma_hex_encoded(data);
    assert forall|i: int| 0 <= i < s.len() implies crate::bytes::hex_digit(
        #[trigger] s[i],
    ) is Some by {
        lemma_hex_digits(data, i / 2);
        assert(i == 2 * (i / 2) || i == 2 * (i / 2) + 1);
    }
    lemma_all_digits(s);
    let nibbles = Seq::new(s.len(), |i: int| crate::bytes::hex_digit(s[i])->0);
    let pairs = crate::bytes::paired(nibbles);
    assert(pairs.len() == data.len());
    assert forall|k: int| 0 <= k < data.len() implies #[trigger] pairs[k] == data[k] by {
        lemma_hex_digits(data, k);
        assert(nibbles[2 * k] == data[k] as nat / 16);
        assert(nibbles[2 * k + 1] == data[k] as nat % 16);
    }
    assert(pairs =~= data);
}

/// A quote and a backslash are written after a backslash, a newline, a carriage
/// return and a tab as a letter after one, and every other control character by its
/// number in four hexadecimal digits. Text is written character by character.
pub proof fn law_escapes_in_text(s: Seq<char>, c: char)
    ensures
        escaped(s + seq!['"']) == escaped(s) + seq!['\\', '"'],
        escaped(s + seq!['\\']) == escaped(s) + seq!['\\', '\\'],
        escaped(s + seq!['\n']) == escaped(s) + seq!['\\', 'n'],
        escaped(s + seq!['\r']) == escaped(s) + seq!['\\', 'r'],
        escaped(s + seq!['\t']) == escaped(s) + seq!['\\', 't'],
        c <= '\u{1f}' && c != '\n' && c != '\r' && c != '\t' ==> escaped(s + seq![c]).len()
            == escaped(s).len() + 6 && escaped(s + seq![c]).take(escaped(s).len() + 4int)
            == escaped(s) + seq!['\\', 'u', '0', '0'],
        c > '\u{1f}' && c != '"' && c != '\\' ==> escaped(s + seq![c]) == escaped(s) + seq![c],
{
    assert((s + seq!['"']).drop_last() =~= s);
    assert((s + seq!['\\']).drop_last() =~= s);
    assert((s + seq!['\n']).drop_last() =~= s);
    assert((s + seq!['\r']).drop_last() =~= s);
    assert((s + seq!['\t']).drop_last() =~= s);
    assert((s + seq![c]).drop_last() =~= s);
    if c <= '\u{1f}' && c != '\n' && c != '\r' && c != '\t' {
        assert(escaped(s + seq![c]).take(escaped(s).len() + 4int) =~= escaped(s) + seq![
            '\\',
            'u',
            '0',
            '0',
        ]);
    }
}

} // verus!
