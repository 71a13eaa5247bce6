//! How a reader takes the JSON that the service writes.
//!
//! The reader here is for proofs only. It reads JSON without whitespace, from
//! the left: strings, natural numbers, `true`, `null`, arrays and objects. The
//! laws say that what it finds in a reply is what the reply is about.
use crate::capture;
use crate::cli;
use crate::http;
use crate::json;
use crate::port;
use crate::server;
use crate::table;
use crate::text;
use vstd::prelude::*;
use vstd::utf8::*;

verus! {

/// A JSON value.
pub enum Json {
    Text(Seq<char>),
    Number(nat),
    True,
    Null,
    Array(Seq<Json>),
    /// The members, in order.
    Object(Seq<(Seq<char>, Json)>),
}

/// The value of a lower-case hexadecimal digit.
pub open spec fn digit_value(c: char) -> Option<nat> {
    if 48 <= c as nat && c as nat <= 57 {
        Some((c as nat - 48) as nat)
    } else if 97 <= c as nat && c as nat <= 102 {
        Some((c as nat - 87) as nat)
    } else {
        None
    }
}

/// The character that a backslash and `c` stand for.
pub open spec fn escape_value(c: char) -> Option<char> {
    match c {
        '"' => Some('"'),
        '\\' => Some('\\'),
        '/' => Some('/'),
        'b' => Some('\u{8}'),
        'f' => Some('\u{c}'),
        'n' => Some('\n'),
        'r' => Some('\r'),
        't' => Some('\t'),
        _ => None,
    }
}

/// Reads the inside of a string up to the quote that ends it: the text, and what
/// follows the quote.
#[verifier::opaque]
pub open spec fn read_text(s: Seq<char>) -> Option<(Seq<char>, Seq<char>)>
    decreases s.len(),
{
    if s.len() == 0 {
        None
    } else if s[0] == '"' {
        Some((seq![], s.skip(1)))
    } else if s[0] == '\\' {
        if s.len() >= 6 && s[1] == 'u' {
            match (digit_value(s[4]), digit_value(s[5]), read_text(s.skip(6))) {
                (Some(high), Some(low), Some((t, rest))) if s[2] == '0' && s[3] == '0' => Some(
                    (seq![(high * 16 + low) as char] + t, rest),
                ),
                _ => None,
            }
        } else if s.len() >= 2 {
            match (escape_value(s[1]), read_text(s.skip(2))) {
                (Some(c), Some((t, rest))) => Some((seq![c] + t, rest)),
                _ => None,
            }
        } else {
            None
        }
    } else if s[0] <= '\u{1f}' {
        None
    } else {
        match read_text(s.skip(1)) {
            Some((t, rest)) => Some((seq![s[0]] + t, rest)),
            None => None,
        }
    }
}

/// Holds of the decimal digits.
pub open spec fn digit() -> spec_fn(char) -> bool {
    |c: char| '0' <= c && c <= '9'
}

/// Reads a value: the value, and what follows it.
#[verifier::opaque]
pub open spec fn read_value(s: Seq<char>) -> Option<(Json, Seq<char>)>
    decreases s.len(), 2int,
{
    if s.len() == 0 {
        None
    } else if s[0] == '"' {
        match read_text(s.skip(1)) {
            Some((t, rest)) => Some((Json::Text(t), rest)),
            None => None,
        }
    } else if s[0] == '[' {
        if s.len() > 1 && s[1] == ']' {
            Some((Json::Array(seq![]), s.skip(2)))
        } else {
            match read_items(s.skip(1)) {
                Some((items, rest)) => Some((Json::Array(items), rest)),
                None => None,
            }
        }
    } else if s[0] == '{' {
        match read_members(s.skip(1)) {
            Some((members, rest)) => Some((Json::Object(members), rest)),
            None => None,
        }
    } else if '0' <= s[0] && s[0] <= '9' {
        let k = text::run_len(s, digit()) as int;
        Some((Json::Number(text::digits_value(s.take(k))), s.skip(k)))
    } else if s.len() >= 4 && s.take(4) == "null"@ {
        Some((Json::Null, s.skip(4)))
    } else if s.len() >= 4 && s.take(4) == "true"@ {
        Some((Json::True, s.skip(4)))
    } else {
        None
    }
}

/// Reads the items of an array that has some, and the bracket that ends it.
#[verifier::opaque]
pub open spec fn read_items(s: Seq<char>) -> Option<(Seq<Json>, Seq<char>)>
    decreases s.len(), 3int,
{
    match read_value(s) {
        Some((v, rest)) => if rest.len() > 0 && rest.len() < s.len() {
            if rest[0] == ']' {
                Some((seq![v], rest.skip(1)))
            } else if rest[0] == ',' {
                match read_items(rest.skip(1)) {
                    Some((vs, end)) => Some((seq![v] + vs, end)),
                    None => None,
                }
            } else {
                None
            }
        } else {
            None
        },
        None => None,
    }
}

/// Reads the members of an object that has some, and the brace that ends it.
#[verifier::opaque]
pub open spec fn read_members(s: Seq<char>) -> Option<(Seq<(Seq<char>, Json)>, Seq<char>)>
    decreases s.len(), 3int,
{
    if s.len() == 0 || s[0] != '"' {
        None
    } else {
        match read_text(s.skip(1)) {
            Some((key, after)) => if after.len() > 0 && after.len() < s.len() && after[0] == ':' {
                match read_value(after.skip(1)) {
                    Some((v, rest)) => if rest.len() > 0 && rest.len() < s.len() {
                        if rest[0] == '}' {
                            Some((seq![(key, v)], rest.skip(1)))
                        } else if rest[0] == ',' {
                            match read_members(rest.skip(1)) {
                                Some((ms, end)) => Some((seq![(key, v)] + ms, end)),
                                None => None,
                            }
                        } else {
                            None
                        }
                    } else {
                        None
                    },
                    None => None,
                }
            } else {
                None
            },
            None => None,
        }
    }
}

/// What a whole text is read as.
pub open spec fn read(s: Seq<char>) -> Option<Json> {
    match read_value(s) {
        Some((v, rest)) => if rest.len() == 0 {
            Some(v)
        } else {
            None
        },
        None => None,
    }
}

/// What the bytes of a body are read as.
pub open spec fn read_body(body: Seq<u8>) -> Option<Json> {
    if valid_utf8(body) {
        read(decode_utf8(body))
    } else {
        None
    }
}

// ---------------------------------------------------------------------------
// Reading what was written
// ---------------------------------------------------------------------------

/// Whether nothing of a value can go on in what follows it.
spec fn closes(rest: Seq<char>) -> bool {
    rest.len() == 0 || rest[0] == ',' || rest[0] == '}' || rest[0] == ']'
}

/// Whether a text is read as a value, whatever follows it that closes the value.
#[verifier::opaque]
spec fn reads(s: Seq<char>, v: Json) -> bool {
    &&& s.len() > 0
    &&& s[0] != ']'
    &&& forall|rest: Seq<char>|
        closes(rest) ==> #[trigger] read_value(s + rest) == Some((v, rest))
}

proof fn lemma_read_char(c: char, rest: Seq<char>)
    ensures
        read_text(json::escaped_char(c) + rest) == (match read_text(rest) {
            Some((t, end)) => Some((seq![c] + t, end)),
            None => None,
        }),
{
    reveal(read_text);
    let s = json::escaped_char(c) + rest;
    if c == '"' || c == '\\' || c == '\n' || c == '\r' || c == '\t' {
        assert(s.skip(2) =~= rest);
    } else if c <= '\u{1f}' {
        assert(s.skip(6) =~= rest);
        assert(c as nat == (c as nat / 16) * 16 + c as nat % 16);
    } else {
        assert(s.skip(1) =~= rest);
    }
}

proof fn lemma_read_text(t: Seq<char>, rest: Seq<char>)
    ensures
        read_text(json::escaped(t) + rest) == (match read_text(rest) {
            Some((u, end)) => Some((t + u, end)),
            None => None,
        }),
    decreases t.len(),
{
    if t.len() == 0 {
        assert(json::escaped(t) + rest =~= rest);
        if let Some((u, _)) = read_text(rest) {
            assert(t + u =~= u);
        }
    } else {
        let front = t.drop_last();
        let tail = json::escaped_char(t.last()) + rest;
        assert(json::escaped(t) + rest =~= json::escaped(front) + tail);
        lemma_read_text(front, tail);
        lemma_read_char(t.last(), rest);
        if let Some((u, _)) = read_text(rest) {
            assert(front + (seq![t.last()] + u) =~= t + u);
        }
    }
}

/// A quoted text is read up to its closing quote.
proof fn lemma_read_quoted(t: Seq<char>, rest: Seq<char>)
    ensures
        (json::quoted(t) + rest).len() > 0,
        (json::quoted(t) + rest)[0] == '"',
        read_text((json::quoted(t) + rest).skip(1)) == Some((t, rest)),
{
    reveal(read_text);
    reveal_strlit("\"");
    let s = json::quoted(t) + rest;
    let end = seq!['"'] + rest;
    assert(s.skip(1) =~= json::escaped(t) + end);
    lemma_read_text(t, end);
    assert(end.skip(1) =~= rest);
    assert(t + Seq::<char>::empty() =~= t);
}

proof fn lemma_reads_text(t: Seq<char>)
    ensures
        reads(json::quoted(t), Json::Text(t)),
{
    reveal(reads);
    reveal(read_value);
    reveal_strlit("\"");
    assert forall|rest: Seq<char>| closes(rest) implies #[trigger] read_value(
        json::quoted(t) + rest,
    ) == Some((Json::Text(t), rest)) by {
        lemma_read_quoted(t, rest);
    }
}

proof fn lemma_reads_number(n: nat)
    ensures
        reads(text::decimal(n), Json::Number(n)),
{
    reveal(reads);
    reveal(read_value);
    let d = text::decimal(n);
    text::lemma_decimal_is_one_word(n);
    text::law_decimal_is_read_back(n);
    assert forall|rest: Seq<char>| closes(rest) implies #[trigger] read_value(d + rest) == Some(
        (Json::Number(n), rest),
    ) by {
        let s = d + rest;
        let k = d.len();
        assert forall|i: int| 0 <= i < k implies digit()(#[trigger] s[i]) by {
            assert(s[i] == d[i]);
        }
        if k < s.len() {
            assert(s[k as int] == rest[0]);
        }
        text::lemma_run_len_is(s, digit(), k);
        assert(s.take(k as int) =~= d);
        assert(s.skip(k as int) =~= rest);
        assert(s[0] == d[0]);
        assert('0' <= d[0] && d[0] <= '9');
        assert(text::without_plus(d) == d);
    }
}

proof fn lemma_reads_null()
    ensures
        reads("null"@, Json::Null),
        reads("true"@, Json::True),
{
    reveal(reads);
    reveal(read_value);
    reveal_strlit("null");
    reveal_strlit("true");
    assert forall|rest: Seq<char>| closes(rest) implies #[trigger] read_value("null"@ + rest)
        == Some((Json::Null, rest)) by {
        let s = "null"@ + rest;
        assert(s.take(4) =~= "null"@);
        assert(s.skip(4) =~= rest);
        assert(s[0] == 'n');
    }
    assert forall|rest: Seq<char>| closes(rest) implies #[trigger] read_value("true"@ + rest)
        == Some((Json::True, rest)) by {
        let s = "true"@ + rest;
        assert(s.take(4) =~= "true"@);
        assert(s.take(4)[0] == 't');
        assert("null"@[0] == 'n');
        assert(s.skip(4) =~= rest);
        assert(s[0] == 't');
    }
}

/// Items with commas between them, from the front.
proof fn lemma_with_commas_front(items: Seq<Seq<char>>)
    requires
        items.len() > 1,
    ensures
        json::with_commas(items) == items[0] + ","@ + json::with_commas(items.skip(1)),
    decreases items.len(),
{
    let front = items.drop_last();
    let more = items.skip(1);
    assert(json::with_commas(items) == json::with_commas(front) + ","@ + items.last());
    if items.len() == 2 {
        assert(json::with_commas(front) == front[0]);
        assert(json::with_commas(more) == more[0]);
    } else {
        lemma_with_commas_front(front);
        assert(front.skip(1) =~= more.drop_last());
        assert(json::with_commas(more) == json::with_commas(more.drop_last()) + ","@
            + more.last());
        assert(json::with_commas(items) =~= items[0] + ","@ + json::with_commas(more));
    }
}

proof fn lemma_read_items(items: Seq<Seq<char>>, vals: Seq<Json>, rest: Seq<char>)
    requires
        items.len() > 0,
        vals.len() == items.len(),
        forall|i: int| 0 <= i < items.len() ==> reads(#[trigger] items[i], vals[i]),
    ensures
        read_items(json::with_commas(items) + "]"@ + rest) == Some((vals, rest)),
    decreases items.len(),
{
    reveal(read_value);
    reveal(reads);
    reveal(read_items);
    reveal_strlit(",");
    reveal_strlit("]");
    let s = json::with_commas(items) + "]"@ + rest;
    assert(reads(items[0], vals[0]));
    if items.len() == 1 {
        let after = "]"@ + rest;
        assert(json::with_commas(items) == items[0]);
        assert(s =~= items[0] + after);
        assert(closes(after));
        assert(read_value(items[0] + after) == Some((vals[0], after)));
        assert(after.skip(1) =~= rest);
        assert(vals =~= seq![vals[0]]);
    } else {
        lemma_with_commas_front(items);
        let more = items.skip(1);
        let after = ","@ + (json::with_commas(more) + "]"@ + rest);
        assert(s =~= items[0] + after);
        assert(closes(after));
        assert(read_value(items[0] + after) == Some((vals[0], after)));
        assert forall|i: int| 0 <= i < more.len() implies reads(
            #[trigger] more[i],
            vals.skip(1)[i],
        ) by {
            assert(reads(items[i + 1], vals[i + 1]));
        }
        lemma_read_items(more, vals.skip(1), rest);
        assert(after.skip(1) =~= json::with_commas(more) + "]"@ + rest);
        assert(vals =~= seq![vals[0]] + vals.skip(1));
    }
}

proof fn lemma_reads_array(items: Seq<Seq<char>>, vals: Seq<Json>)
    requires
        vals.len() == items.len(),
        forall|i: int| 0 <= i < items.len() ==> reads(#[trigger] items[i], vals[i]),
    ensures
        reads(json::array(items), Json::Array(vals)),
{
    reveal(read_items);
    reveal(reads);
    reveal(read_value);
    reveal_strlit("[");
    reveal_strlit("]");
    assert forall|rest: Seq<char>| closes(rest) implies #[trigger] read_value(
        json::array(items) + rest,
    ) == Some((Json::Array(vals), rest)) by {
        let s = json::array(items) + rest;
        if items.len() == 0 {
            assert(json::with_commas(items) =~= seq![]);
            assert(s =~= seq!['[', ']'] + rest);
            assert(s.skip(2) =~= rest);
            assert(vals =~= seq![]);
        } else {
            lemma_read_items(items, vals, rest);
            assert(s.skip(1) =~= json::with_commas(items) + "]"@ + rest);
            assert(reads(items[0], vals[0]));
            if items.len() > 1 {
                lemma_with_commas_front(items);
            }
            assert(s[1] == items[0][0]);
        }
    }
}

/// A member of an object as it is written.
pub open spec fn member(key: Seq<char>, value: Seq<char>) -> Seq<char> {
    json::quoted(key) + ":"@ + value
}

/// The members of an object as they are written, from the front.
pub open spec fn members_text(members: Seq<(Seq<char>, Seq<char>)>) -> Seq<char>
    decreases members.len(),
{
    if members.len() == 0 {
        seq![]
    } else if members.len() == 1 {
        member(members[0].0, members[0].1)
    } else {
        member(members[0].0, members[0].1) + ","@ + members_text(members.skip(1))
    }
}

/// An object as it is written.
pub open spec fn object_text(members: Seq<(Seq<char>, Seq<char>)>) -> Seq<char> {
    "{"@ + members_text(members) + "}"@
}

/// Whether each member is read as the value of the same key.
spec fn members_read(
    members: Seq<(Seq<char>, Seq<char>)>,
    vals: Seq<(Seq<char>, Json)>,
) -> bool {
    &&& members.len() > 0
    &&& vals.len() == members.len()
    &&& forall|i: int|
        0 <= i < members.len() ==> (#[trigger] members[i]).0 == vals[i].0 && reads(
            members[i].1,
            vals[i].1,
        )
}

/// Reading members starts with the first.
proof fn lemma_read_member(key: Seq<char>, value: Seq<char>, v: Json, after: Seq<char>)
    requires
        reads(value, v),
        after.len() > 0,
        after[0] == ',' || after[0] == '}',
    ensures
        read_members(member(key, value) + after) == (if after[0] == '}' {
            Some((seq![(key, v)], after.skip(1)))
        } else {
            match read_members(after.skip(1)) {
                Some((ms, end)) => Some((seq![(key, v)] + ms, end)),
                None => None,
            }
        }),
{
    reveal(read_value);
    reveal(reads);
    reveal(read_members);
    reveal_strlit(":");
    let s = member(key, value) + after;
    let tail = ":"@ + (value + after);
    assert(s =~= json::quoted(key) + tail);
    lemma_read_quoted(key, tail);
    assert(tail.skip(1) =~= value + after);
    assert(closes(after));
    assert(read_value(value + after) == Some((v, after)));
}

proof fn lemma_read_members(
    members: Seq<(Seq<char>, Seq<char>)>,
    vals: Seq<(Seq<char>, Json)>,
    rest: Seq<char>,
)
    requires
        members_read(members, vals),
    ensures
        read_members(members_text(members) + "}"@ + rest) == Some((vals, rest)),
    decreases members.len(),
{
    reveal_strlit(",");
    reveal_strlit("}");
    let s = members_text(members) + "}"@ + rest;
    let (key, value) = members[0];
    let v = vals[0].1;
    assert(members[0].0 == vals[0].0);
    if members.len() == 1 {
        let after = "}"@ + rest;
        assert(s =~= member(key, value) + after);
        lemma_read_member(key, value, v, after);
        assert(after.skip(1) =~= rest);
        assert(vals =~= seq![(key, v)]);
    } else {
        let more = members.skip(1);
        let after = ","@ + (members_text(more) + "}"@ + rest);
        assert(s =~= member(key, value) + after);
        lemma_read_member(key, value, v, after);
        assert forall|i: int| 0 <= i < more.len() implies (#[trigger] more[i]).0 == vals.skip(1)[i].0
            && reads(more[i].1, vals.skip(1)[i].1) by {
            assert(members[i + 1].0 == vals[i + 1].0);
        }
        lemma_read_members(more, vals.skip(1), rest);
        assert(after.skip(1) =~= members_text(more) + "}"@ + rest);
        assert(vals =~= seq![(key, v)] + vals.skip(1));
    }
}

proof fn lemma_reads_object(
    members: Seq<(Seq<char>, Seq<char>)>,
    vals: Seq<(Seq<char>, Json)>,
)
    requires
        members_read(members, vals),
    ensures
        reads(object_text(members), Json::Object(vals)),
{
    reveal(read_members);
    reveal(reads);
    reveal(read_value);
    reveal_strlit("{");
    assert forall|rest: Seq<char>| closes(rest) implies #[trigger] read_value(
        object_text(members) + rest,
    ) == Some((Json::Object(vals), rest)) by {
        let s = object_text(members) + rest;
        lemma_read_members(members, vals, rest);
        assert(s.skip(1) =~= members_text(members) + "}"@ + rest);
    }
}

proof fn lemma_read_all(s: Seq<char>, v: Json)
    requires
        reads(s, v),
    ensures
        read(s) == Some(v),
        read_body(encode_utf8(s)) == Some(v),
{
    reveal(reads);
    let none = Seq::<char>::empty();
    assert(s + none =~= s);
    assert(closes(none));
    encode_utf8_valid_utf8(s);
    encode_utf8_decode_utf8(s);
}

/// A text without quotes, backslashes and control characters is written as it is.
pub proof fn law_plain_text_needs_no_escape(s: Seq<char>)
    requires
        forall|i: int|
            0 <= i < s.len() ==> #[trigger] s[i] != '"' && s[i] != '\\' && s[i] > '\u{1f}',
    ensures
        json::escaped(s) == s,
    decreases s.len(),
{
    if s.len() > 0 {
        let front = s.drop_last();
        assert forall|i: int| 0 <= i < front.len() implies #[trigger] front[i] != '"' && front[i]
            != '\\' && front[i] > '\u{1f}' by {
            assert(front[i] == s[i]);
        }
        law_plain_text_needs_no_escape(front);
        let c = s.last();
        assert(s[s.len() - 1] == c);
        assert(json::escaped_char(c) =~= seq![c]);
        assert(front + seq![c] =~= s);
    } else {
        assert(json::escaped(s) =~= s);
    }
}

/// The members before which another one is written.
proof fn lemma_members_front(
    key: Seq<char>,
    value: Seq<char>,
    more: Seq<(Seq<char>, Seq<char>)>,
)
    requires
        more.len() > 0,
    ensures
        members_text(seq![(key, value)] + more) == member(key, value) + ","@ + members_text(more),
{
    let all = seq![(key, value)] + more;
    assert(all.skip(1) =~= more);
}

proof fn lemma_members_one(key: Seq<char>, value: Seq<char>)
    ensures
        members_text(seq![(key, value)]) == member(key, value),
{
}

/// How the keys of a port are written.
proof fn lemma_port_keys()
    ensures
        "{\"name\":"@ == "{"@ + (json::quoted("name"@) + ":"@),
        ",\"pty_path\":"@ == ","@ + (json::quoted("pty_path"@) + ":"@),
        ",\"active_scenario\":"@ == ","@ + (json::quoted("active_scenario"@) + ":"@),
        ",\"scenarios\":"@ == ","@ + (json::quoted("scenarios"@) + ":"@),
        ",\"triggers\":"@ == ","@ + (json::quoted("triggers"@) + ":"@),
        ",\"input_rule_count\":"@ == ","@ + (json::quoted("input_rule_count"@) + ":"@),
{
    reveal_strlit("{");
    reveal_strlit(",");
    reveal_strlit(":");
    reveal_strlit("\"");
    reveal_strlit("name");
    reveal_strlit("pty_path");
    reveal_strlit("active_scenario");
    reveal_strlit("scenarios");
    reveal_strlit("triggers");
    reveal_strlit("input_rule_count");
    reveal_strlit("{\"name\":");
    reveal_strlit(",\"pty_path\":");
    reveal_strlit(",\"active_scenario\":");
    reveal_strlit(",\"scenarios\":");
    reveal_strlit(",\"triggers\":");
    reveal_strlit(",\"input_rule_count\":");
    law_plain_text_needs_no_escape("name"@);
    law_plain_text_needs_no_escape("pty_path"@);
    law_plain_text_needs_no_escape("active_scenario"@);
    law_plain_text_needs_no_escape("scenarios"@);
    law_plain_text_needs_no_escape("triggers"@);
    law_plain_text_needs_no_escape("input_rule_count"@);
    assert("{\"name\":"@ =~= "{"@ + (json::quoted("name"@) + ":"@));
    assert(",\"pty_path\":"@ =~= ","@ + (json::quoted("pty_path"@) + ":"@));
    assert(",\"active_scenario\":"@ =~= ","@ + (json::quoted("active_scenario"@) + ":"@));
    assert(",\"scenarios\":"@ =~= ","@ + (json::quoted("scenarios"@) + ":"@));
    assert(",\"triggers\":"@ =~= ","@ + (json::quoted("triggers"@) + ":"@));
    assert(",\"input_rule_count\":"@ =~= ","@ + (json::quoted("input_rule_count"@) + ":"@));
}

/// The names as they are read from an array of them.
pub open spec fn texts(names: Seq<Seq<char>>) -> Json {
    Json::Array(names.map_values(|n: Seq<char>| Json::Text(n)))
}

proof fn lemma_reads_names(names: Seq<Seq<char>>)
    ensures
        reads(json::array(json::quoted_all(names)), texts(names)),
{
    let items = json::quoted_all(names);
    let vals = names.map_values(|n: Seq<char>| Json::Text(n));
    assert forall|i: int| 0 <= i < items.len() implies reads(#[trigger] items[i], vals[i]) by {
        lemma_reads_text(names[i]);
    }
    lemma_reads_array(items, vals);
}

/// A member after others.
proof fn lemma_reads_member(
    key: Seq<char>,
    value: Seq<char>,
    v: Json,
    more: Seq<(Seq<char>, Seq<char>)>,
    vals: Seq<(Seq<char>, Json)>,
)
    requires
        members_read(more, vals),
        reads(value, v),
    ensures
        members_read(seq![(key, value)] + more, seq![(key, v)] + vals),
{
    let all = seq![(key, value)] + more;
    let both = seq![(key, v)] + vals;
    assert forall|i: int| 0 <= i < all.len() implies (#[trigger] all[i]).0 == both[i].0 && reads(
        all[i].1,
        both[i].1,
    ) by {
        if i > 0 {
            assert(more[i - 1].0 == vals[i - 1].0);
        }
    }
}

/// The members of a port, from the fourth on.
spec fn last_members(p: port::PortView, more: Seq<(Seq<char>, Seq<char>)>) -> Seq<
    (Seq<char>, Seq<char>),
> {
    seq![("scenarios"@, json::array(json::quoted_all(p.compiled.order)))] + more
}

/// The members of a port, with those that follow them.
spec fn all_members(p: port::PortView, more: Seq<(Seq<char>, Seq<char>)>) -> Seq<
    (Seq<char>, Seq<char>),
> {
    seq![("name"@, json::quoted(p.name))] + (seq![("pty_path"@, json::quoted(p.device_text()))] + (
    seq![("active_scenario"@, json::quoted(p.active))] + last_members(p, more)))
}

/// What is read of a port, with what is read of the members that follow.
pub open spec fn port_values(p: port::PortView, more: Seq<(Seq<char>, Json)>) -> Seq<
    (Seq<char>, Json),
> {
    seq![
        ("name"@, Json::Text(p.name)),
        (
            "pty_path"@,
            Json::Text(
                match p.device_path {
                    Some(path) => path,
                    None => "<none>"@,
                },
            ),
        ),
        ("active_scenario"@, Json::Text(p.active)),
        ("scenarios"@, texts(p.compiled.order)),
    ] + more
}

proof fn lemma_members_are_read(
    p: port::PortView,
    more: Seq<(Seq<char>, Seq<char>)>,
    vals: Seq<(Seq<char>, Json)>,
)
    requires
        more.len() == 0 && vals.len() == 0 || members_read(more, vals),
    ensures
        members_read(all_members(p, more), port_values(p, vals)),
{
    let order = json::array(json::quoted_all(p.compiled.order));
    lemma_reads_names(p.compiled.order);
    lemma_reads_text(p.name);
    lemma_reads_text(p.device_text());
    lemma_reads_text(p.active);
    let vals4 = seq![("scenarios"@, texts(p.compiled.order))] + vals;
    if more.len() > 0 {
        lemma_reads_member("scenarios"@, order, texts(p.compiled.order), more, vals);
    }
    assert(members_read(last_members(p, more), vals4));
    let more3 = seq![("active_scenario"@, json::quoted(p.active))] + last_members(p, more);
    let vals3 = seq![("active_scenario"@, Json::Text(p.active))] + vals4;
    lemma_reads_member(
        "active_scenario"@,
        json::quoted(p.active),
        Json::Text(p.active),
        last_members(p, more),
        vals4,
    );
    let more2 = seq![("pty_path"@, json::quoted(p.device_text()))] + more3;
    let vals2 = seq![("pty_path"@, Json::Text(p.device_text()))] + vals3;
    lemma_reads_member(
        "pty_path"@,
        json::quoted(p.device_text()),
        Json::Text(p.device_text()),
        more3,
        vals3,
    );
    lemma_reads_member("name"@, json::quoted(p.name), Json::Text(p.name), more2, vals2);
    assert(seq![("name"@, Json::Text(p.name))] + vals2 =~= port_values(p, vals));
}

/// Appending is associative.
proof fn lemma_append(a: Seq<char>, b: Seq<char>, c: Seq<char>)
    ensures
        a + b + c == a + (b + c),
{
    assert(a + b + c =~= a + (b + c));
}

/// A member whose key is written together with what stands before it.
proof fn lemma_member_lead(
    lead: Seq<char>,
    before: Seq<char>,
    key: Seq<char>,
    value: Seq<char>,
    rest: Seq<char>,
)
    requires
        lead == before + (json::quoted(key) + ":"@),
    ensures
        before + (member(key, value) + rest) == lead + (value + rest),
{
    let name = json::quoted(key) + ":"@;
    lemma_append(name, value, rest);
    lemma_append(before, name, value + rest);
}

/// A member before others, with what follows them.
proof fn lemma_members_lead(
    lead: Seq<char>,
    before: Seq<char>,
    key: Seq<char>,
    value: Seq<char>,
    more: Seq<(Seq<char>, Seq<char>)>,
    end: Seq<char>,
)
    requires
        lead == before + (json::quoted(key) + ":"@),
    ensures
        more.len() > 0 ==> before + (members_text(seq![(key, value)] + more) + end) == lead + (
        value + (","@ + (members_text(more) + end))),
        more.len() == 0 ==> before + (members_text(seq![(key, value)] + more) + end) == lead + (
        value + end),
{
    if more.len() > 0 {
        lemma_members_front(key, value, more);
        let one = member(key, value);
        let rest = members_text(more);
        lemma_append(one + ","@, rest, end);
        lemma_append(one, ","@, rest + end);
        lemma_member_lead(lead, before, key, value, ","@ + (rest + end));
    } else {
        assert(seq![(key, value)] + more =~= seq![(key, value)]);
        lemma_members_one(key, value);
        lemma_member_lead(lead, before, key, value, end);
    }
}

/// A port is written as its members are, with those that follow them.
proof fn lemma_port_text(p: port::PortView, more: Seq<(Seq<char>, Seq<char>)>)
    ensures
        object_text(all_members(p, more)) == json::port_members(p) + (if more.len() == 0 {
            "}"@
        } else {
            ","@ + (members_text(more) + "}"@)
        }),
{
    lemma_port_keys();
    let (name, path, active) = (
        json::quoted(p.name),
        json::quoted(p.device_text()),
        json::quoted(p.active),
    );
    let order = json::array(json::quoted_all(p.compiled.order));
    let end = if more.len() == 0 {
        "}"@
    } else {
        ","@ + (members_text(more) + "}"@)
    };
    let (l1, l2, l3, l4) = (
        "{\"name\":"@,
        ",\"pty_path\":"@,
        ",\"active_scenario\":"@,
        ",\"scenarios\":"@,
    );
    let more4 = last_members(p, more);
    let more3 = seq![("active_scenario"@, active)] + more4;
    let more2 = seq![("pty_path"@, path)] + more3;
    lemma_members_lead(l4, ","@, "scenarios"@, order, more, "}"@);
    lemma_members_lead(l3, ","@, "active_scenario"@, active, more4, "}"@);
    lemma_members_lead(l2, ","@, "pty_path"@, path, more3, "}"@);
    lemma_members_lead(l1, "{"@, "name"@, name, more2, "}"@);
    lemma_append("{"@, members_text(all_members(p, more)), "}"@);
    let t4 = l4 + (order + end);
    let t3 = l3 + (active + t4);
    let t2 = l2 + (path + t3);
    let s2 = l1 + name;
    let s3 = s2 + l2;
    let s4 = s3 + path;
    let s5 = s4 + l3;
    let s6 = s5 + active;
    let s7 = s6 + l4;
    lemma_append(s7, order, end);
    lemma_append(s6, l4, order + end);
    lemma_append(s5, active, t4);
    lemma_append(s4, l3, active + t4);
    lemma_append(s3, path, t3);
    lemma_append(s2, l2, path + t3);
    lemma_append(l1, name, t2);
}

/// What is read of a port in a list of ports is its name, its device path, the
/// name of the scenario that is active and the names of its scenarios, as they
/// are; of a single port, also the triggers of the active scenario and the number
/// of its rules.
pub proof fn law_port_is_read_back(p: port::PortView)
    ensures
        read(json::port_summary(p)) matches Some(Json::Object(members)) && members == seq![
            ("name"@, Json::Text(p.name)),
            (
                "pty_path"@,
                Json::Text(
                    match p.device_path {
                        Some(path) => path,
                        None => "<none>"@,
                    },
                ),
            ),
            ("active_scenario"@, Json::Text(p.active)),
            ("scenarios"@, texts(p.compiled.order)),
        ],
        read(json::port_detail(p)) matches Some(Json::Object(members)) && members == seq![
            ("name"@, Json::Text(p.name)),
            (
                "pty_path"@,
                Json::Text(
                    match p.device_path {
                        Some(path) => path,
                        None => "<none>"@,
                    },
                ),
            ),
            ("active_scenario"@, Json::Text(p.active)),
            ("scenarios"@, texts(p.compiled.order)),
            ("triggers"@, texts(table::names(p.scenario().triggers))),
            ("input_rule_count"@, Json::Number(p.scenario().rules.len())),
        ],
{
    let path = match p.device_path {
        Some(path) => path,
        None => "<none>"@,
    };
    lemma_reads_summary(p);
    lemma_read_all(json::port_summary(p), Json::Object(port_values(p, seq![])));
    assert(port_values(p, seq![]) =~= seq![
        ("name"@, Json::Text(p.name)),
        ("pty_path"@, Json::Text(path)),
        ("active_scenario"@, Json::Text(p.active)),
        ("scenarios"@, texts(p.compiled.order)),
    ]);
    lemma_reads_detail(p);
    let vals = detail_members(p).1;
    lemma_read_all(json::port_detail(p), Json::Object(port_values(p, vals)));
    let all = seq![
        ("name"@, Json::Text(p.name)),
        ("pty_path"@, Json::Text(path)),
        ("active_scenario"@, Json::Text(p.active)),
        ("scenarios"@, texts(p.compiled.order)),
        ("triggers"@, texts(table::names(p.scenario().triggers))),
        ("input_rule_count"@, Json::Number(p.scenario().rules.len())),
    ];
    assert(port_values(p, vals) =~= all);
    assert(read(json::port_detail(p)) == Some(Json::Object(all)));
}

proof fn lemma_reads_summary(p: port::PortView)
    ensures
        reads(json::port_summary(p), Json::Object(port_values(p, seq![]))),
{
    let none = Seq::<(Seq<char>, Seq<char>)>::empty();
    lemma_members_are_read(p, none, seq![]);
    lemma_port_text(p, none);
    lemma_reads_object(all_members(p, none), port_values(p, seq![]));
}

/// The members that only the reply about a single port has, and what is read of
/// them.
spec fn detail_members(p: port::PortView) -> (
    Seq<(Seq<char>, Seq<char>)>,
    Seq<(Seq<char>, Json)>,
) {
    let names = table::names(p.scenario().triggers);
    let count = p.scenario().rules.len();
    (
        seq![
            ("triggers"@, json::array(json::quoted_all(names))),
            ("input_rule_count"@, text::decimal(count)),
        ],
        seq![("triggers"@, texts(names)), ("input_rule_count"@, Json::Number(count))],
    )
}

proof fn lemma_reads_detail(p: port::PortView)
    ensures
        reads(json::port_detail(p), Json::Object(port_values(p, detail_members(p).1))),
{
    let names = table::names(p.scenario().triggers);
    let count = p.scenario().rules.len();
    let list = json::array(json::quoted_all(names));
    let (more, vals) = detail_members(p);
    let one = seq![("input_rule_count"@, text::decimal(count))];
    let last = seq![("input_rule_count"@, Json::Number(count))];
    assert(seq![("triggers"@, list)] + one =~= more);
    assert(members_read(more, vals)) by {
        lemma_reads_names(names);
        lemma_reads_number(count);
        assert(members_read(one, last));
        lemma_reads_member("triggers"@, list, texts(names), one, last);
        assert(seq![("triggers"@, texts(names))] + last =~= vals);
    }
    lemma_members_are_read(p, more, vals);
    lemma_reads_object(all_members(p, more), port_values(p, vals));
    lemma_port_text(p, more);
    lemma_detail_text(p);
}

proof fn lemma_detail_text(p: port::PortView)
    ensures
        json::port_detail(p) == json::port_members(p) + (","@ + (members_text(detail_members(p).0)
            + "}"@)),
{
    let names = table::names(p.scenario().triggers);
    let list = json::array(json::quoted_all(names));
    let count = text::decimal(p.scenario().rules.len());
    let (more, _) = detail_members(p);
    let one = seq![("input_rule_count"@, count)];
    let none = Seq::<(Seq<char>, Seq<char>)>::empty();
    assert(seq![("triggers"@, list)] + one =~= more);
    assert(one + none =~= one);
    lemma_port_keys();
    let (l5, l6) = (",\"triggers\":"@, ",\"input_rule_count\":"@);
    lemma_members_lead(l5, ","@, "triggers"@, list, one, "}"@);
    lemma_members_lead(l6, ","@, "input_rule_count"@, count, none, "}"@);
    let s1 = json::port_members(p);
    let s2 = s1 + l5;
    let s3 = s2 + list;
    let s4 = s3 + l6;
    let t6 = l6 + (count + "}"@);
    lemma_append(s4, count, "}"@);
    lemma_append(s3, l6, count + "}"@);
    lemma_append(s2, list, t6);
    lemma_append(s1, l5, list + t6);
}

/// How the other keys are written.
proof fn lemma_other_keys()
    ensures
        "{\"id\":"@ == "{"@ + (json::quoted("id"@) + ":"@),
        ",\"ts_ms\":"@ == ","@ + (json::quoted("ts_ms"@) + ":"@),
        ",\"data_hex\":\""@ == ","@ + (json::quoted("data_hex"@) + ":"@) + "\""@,
        "\",\"matched_rule\":"@ == "\""@ + (","@ + (json::quoted("matched_rule"@) + ":"@)),
        "{\"error\":"@ == "{"@ + (json::quoted("error"@) + ":"@),
        "{\"ok\":true,\"active_scenario\":"@ == "{"@ + (json::quoted("ok"@) + ":"@) + ("true"@ + (
        ","@ + (json::quoted("active_scenario"@) + ":"@))),
        "{\"ok\":true,\"trigger\":"@ == "{"@ + (json::quoted("ok"@) + ":"@) + ("true"@ + (","@ + (
        json::quoted("trigger"@) + ":"@))),
        ",\"bytes\":"@ == ","@ + (json::quoted("bytes"@) + ":"@),
        ",\"frame\":"@ == ","@ + (json::quoted("frame"@) + ":"@),
        "{\"ok\":true}"@ == "{"@ + (json::quoted("ok"@) + ":"@) + ("true"@ + "}"@),
{
    reveal_strlit("{");
    reveal_strlit("}");
    reveal_strlit(",");
    reveal_strlit(":");
    reveal_strlit("\"");
    reveal_strlit("true");
    reveal_strlit("id");
    reveal_strlit("ts_ms");
    reveal_strlit("data_hex");
    reveal_strlit("matched_rule");
    reveal_strlit("error");
    reveal_strlit("ok");
    reveal_strlit("active_scenario");
    reveal_strlit("trigger");
    reveal_strlit("bytes");
    reveal_strlit("frame");
    reveal_strlit("{\"id\":");
    reveal_strlit(",\"ts_ms\":");
    reveal_strlit(",\"data_hex\":\"");
    reveal_strlit("\",\"matched_rule\":");
    reveal_strlit("{\"error\":");
    reveal_strlit("{\"ok\":true,\"active_scenario\":");
    reveal_strlit("{\"ok\":true,\"trigger\":");
    reveal_strlit(",\"bytes\":");
    reveal_strlit(",\"frame\":");
    reveal_strlit("{\"ok\":true}");
    law_plain_text_needs_no_escape("id"@);
    law_plain_text_needs_no_escape("ts_ms"@);
    law_plain_text_needs_no_escape("data_hex"@);
    law_plain_text_needs_no_escape("matched_rule"@);
    law_plain_text_needs_no_escape("error"@);
    law_plain_text_needs_no_escape("ok"@);
    law_plain_text_needs_no_escape("active_scenario"@);
    law_plain_text_needs_no_escape("trigger"@);
    law_plain_text_needs_no_escape("bytes"@);
    law_plain_text_needs_no_escape("frame"@);
    assert("{\"id\":"@ =~= "{"@ + (json::quoted("id"@) + ":"@));
    assert(",\"ts_ms\":"@ =~= ","@ + (json::quoted("ts_ms"@) + ":"@));
    assert(",\"data_hex\":\""@ =~= ","@ + (json::quoted("data_hex"@) + ":"@) + "\""@);
    assert("\",\"matched_rule\":"@ =~= "\""@ + (","@ + (json::quoted("matched_rule"@) + ":"@)));
    assert("{\"error\":"@ =~= "{"@ + (json::quoted("error"@) + ":"@));
    assert("{\"ok\":true,\"active_scenario\":"@ =~= "{"@ + (json::quoted("ok"@) + ":"@) + ("true"@
        + (","@ + (json::quoted("active_scenario"@) + ":"@))));
    assert("{\"ok\":true,\"trigger\":"@ =~= "{"@ + (json::quoted("ok"@) + ":"@) + ("true"@ + (","@
        + (json::quoted("trigger"@) + ":"@))));
    assert(",\"bytes\":"@ =~= ","@ + (json::quoted("bytes"@) + ":"@));
    assert(",\"frame\":"@ =~= ","@ + (json::quoted("frame"@) + ":"@));
    assert("{\"ok\":true}"@ =~= "{"@ + (json::quoted("ok"@) + ":"@) + ("true"@ + "}"@));
}

/// The one member of an object.
proof fn lemma_reads_one(key: Seq<char>, value: Seq<char>, v: Json, lead: Seq<char>)
    requires
        reads(value, v),
        lead == "{"@ + (json::quoted(key) + ":"@),
    ensures
        reads(lead + value + "}"@, Json::Object(seq![(key, v)])),
{
    let one = seq![(key, value)];
    let none = Seq::<(Seq<char>, Seq<char>)>::empty();
    assert(one + none =~= one);
    assert(members_read(one, seq![(key, v)]));
    lemma_reads_object(one, seq![(key, v)]);
    lemma_members_lead(lead, "{"@, key, value, none, "}"@);
    lemma_append("{"@, members_text(one), "}"@);
    lemma_append(lead, value, "}"@);
}

/// What is read of an error is its message; of a success that has nothing to
/// add, that it was one.
pub proof fn law_error_is_read_back(message: Seq<char>)
    ensures
        read(json::error_object(message)) matches Some(Json::Object(members)) && members == seq![
            ("error"@, Json::Text(message)),
        ],
        read("{\"ok\":true}"@) matches Some(Json::Object(members)) && members == seq![
            ("ok"@, Json::True),
        ],
{
    lemma_other_keys();
    lemma_reads_text(message);
    let lead = "{\"error\":"@;
    lemma_reads_one("error"@, json::quoted(message), Json::Text(message), lead);
    lemma_read_all(json::error_object(message), Json::Object(seq![("error"@, Json::Text(message))]));
    lemma_reads_null();
    let ok = "{"@ + (json::quoted("ok"@) + ":"@);
    lemma_reads_one("ok"@, "true"@, Json::True, ok);
    lemma_append(ok, "true"@, "}"@);
    lemma_read_all("{\"ok\":true}"@, Json::Object(seq![("ok"@, Json::True)]));
}

/// The reply to a switch is read as a success that names the scenario switched
/// to.
pub proof fn law_switch_is_read_back(scenario: Seq<char>)
    ensures
        read(json::switched_object(scenario)) matches Some(Json::Object(members)) && members
            == seq![("ok"@, Json::True), ("active_scenario"@, Json::Text(scenario))],
{
    lemma_other_keys();
    lemma_reads_null();
    lemma_reads_text(scenario);
    let value = json::quoted(scenario);
    let ok = "{"@ + (json::quoted("ok"@) + ":"@);
    let lead = ","@ + (json::quoted("active_scenario"@) + ":"@);
    let none = Seq::<(Seq<char>, Seq<char>)>::empty();
    let one = seq![("active_scenario"@, value)];
    assert(one + none =~= one);
    let all = seq![("ok"@, "true"@)] + one;
    let vals = seq![("ok"@, Json::True)] + seq![("active_scenario"@, Json::Text(scenario))];
    assert(members_read(one, seq![("active_scenario"@, Json::Text(scenario))]));
    lemma_reads_member(
        "ok"@,
        "true"@,
        Json::True,
        one,
        seq![("active_scenario"@, Json::Text(scenario))],
    );
    lemma_reads_object(all, vals);
    lemma_members_lead(lead, ","@, "active_scenario"@, value, none, "}"@);
    lemma_members_lead(ok, "{"@, "ok"@, "true"@, one, "}"@);
    lemma_append("{"@, members_text(all), "}"@);
    let whole = ok + ("true"@ + lead);
    lemma_append(whole, value, "}"@);
    lemma_append(ok, "true"@ + lead, value + "}"@);
    lemma_append("true"@, lead, value + "}"@);
    assert(json::switched_object(scenario) == object_text(all));
    lemma_read_all(json::switched_object(scenario), Json::Object(vals));
    assert(vals =~= seq![("ok"@, Json::True), ("active_scenario"@, Json::Text(scenario))]);
}

/// The reply about a trigger is read as a success that names the trigger, the
/// number of bytes that it sent and their text.
pub proof fn law_fired_is_read_back(trigger: Seq<char>, len: nat, frame: Seq<char>)
    ensures
        read(json::fired_object(trigger, len, frame)) matches Some(Json::Object(members))
            && members == seq![
            ("ok"@, Json::True),
            ("trigger"@, Json::Text(trigger)),
            ("bytes"@, Json::Number(len)),
            ("frame"@, Json::Text(frame)),
        ],
{
    let (l1, l2) = (
        "{"@ + (json::quoted("ok"@) + ":"@),
        ","@ + (json::quoted("trigger"@) + ":"@),
    );
    let (l3, l4) = (
        ","@ + (json::quoted("bytes"@) + ":"@),
        ","@ + (json::quoted("frame"@) + ":"@),
    );
    let (v2, v3, v4) = (json::quoted(trigger), text::decimal(len), json::quoted(frame));
    let all = four_members(
        ("ok"@, "true"@),
        ("trigger"@, v2),
        ("bytes"@, v3),
        ("frame"@, v4),
    );
    let vals = seq![
        ("ok"@, Json::True),
        ("trigger"@, Json::Text(trigger)),
        ("bytes"@, Json::Number(len)),
        ("frame"@, Json::Text(frame)),
    ];
    lemma_reads_null();
    lemma_reads_text(trigger);
    lemma_reads_number(len);
    lemma_reads_text(frame);
    assert(members_read(all, vals));
    lemma_reads_object(all, vals);
    lemma_four_members(
        ("ok"@, "true"@),
        ("trigger"@, v2),
        ("bytes"@, v3),
        ("frame"@, v4),
        l1,
        l2,
        l3,
        l4,
    );
    lemma_other_keys();
    let t4 = l4 + (v4 + "}"@);
    let t3 = l3 + (v3 + t4);
    let s1 = l1 + ("true"@ + l2);
    let s2 = s1 + v2;
    let s3 = s2 + l3;
    let s4 = s3 + v3;
    let s5 = s4 + l4;
    lemma_append(s5, v4, "}"@);
    lemma_append(s4, l4, v4 + "}"@);
    lemma_append(s3, v3, t4);
    lemma_append(s2, l3, v3 + t4);
    lemma_append(s1, v2, t3);
    lemma_append(l1, "true"@ + l2, v2 + t3);
    lemma_append("true"@, l2, v2 + t3);
    lemma_read_all(json::fired_object(trigger, len, frame), Json::Object(vals));
}

spec fn four_members(
    a: (Seq<char>, Seq<char>),
    b: (Seq<char>, Seq<char>),
    c: (Seq<char>, Seq<char>),
    d: (Seq<char>, Seq<char>),
) -> Seq<(Seq<char>, Seq<char>)> {
    seq![a] + (seq![b] + (seq![c] + seq![d]))
}

/// How an object of four members is written.
proof fn lemma_four_members(
    a: (Seq<char>, Seq<char>),
    b: (Seq<char>, Seq<char>),
    c: (Seq<char>, Seq<char>),
    d: (Seq<char>, Seq<char>),
    l1: Seq<char>,
    l2: Seq<char>,
    l3: Seq<char>,
    l4: Seq<char>,
)
    requires
        l1 == "{"@ + (json::quoted(a.0) + ":"@),
        l2 == ","@ + (json::quoted(b.0) + ":"@),
        l3 == ","@ + (json::quoted(c.0) + ":"@),
        l4 == ","@ + (json::quoted(d.0) + ":"@),
    ensures
        object_text(four_members(a, b, c, d)) == l1 + (a.1 + (l2 + (b.1 + (l3 + (c.1 + (l4 + (d.1
            + "}"@))))))),
{
    let none = Seq::<(Seq<char>, Seq<char>)>::empty();
    assert(seq![d] + none =~= seq![d]);
    lemma_members_lead(l4, ","@, d.0, d.1, none, "}"@);
    lemma_members_lead(l3, ","@, c.0, c.1, seq![d], "}"@);
    lemma_members_lead(l2, ","@, b.0, b.1, seq![c] + seq![d], "}"@);
    lemma_members_lead(l1, "{"@, a.0, a.1, seq![b] + (seq![c] + seq![d]), "}"@);
    lemma_append("{"@, members_text(four_members(a, b, c, d)), "}"@);
}

/// Hexadecimal digits need no escape, and are as many as the bytes twice over.
proof fn lemma_hex_is_plain(data: Seq<u8>)
    ensures
        json::escaped(json::hex_encoded(data)) == json::hex_encoded(data),
{
    let h = json::hex_encoded(data);
    json::lemma_hex_encoded(data);
    assert forall|i: int| 0 <= i < h.len() implies #[trigger] h[i] != '"' && h[i] != '\\' && h[i]
        > '\u{1f}' by {
        let b = data[i / 2];
        assert(i == 2 * (i / 2) || i == 2 * (i / 2) + 1);
        assert(b as nat / 16 < 16 && b as nat % 16 < 16);
    }
    law_plain_text_needs_no_escape(h);
}

/// What a text in hexadecimal says: two lower-case digits to a byte, the higher
/// one first.
pub open spec fn says_bytes(h: Seq<char>, data: Seq<u8>) -> bool {
    &&& h.len() == 2 * data.len()
    &&& forall|i: int|
        0 <= i < data.len() ==> digit_value(h[2 * i]) == Some((#[trigger] data[i] as nat) / 16)
            && digit_value(h[2 * i + 1]) == Some(data[i] as nat % 16)
}

/// What is read of an event: its number, its time, the bytes of the frame in
/// hexadecimal, and the label of the rule that answered it, or nothing where none
/// did.
pub proof fn law_event_is_read_back(e: capture::EventView)
    ensures
        says_bytes(json::hex_encoded(e.data), e.data),
        read(json::event_object(e)) matches Some(Json::Object(members)) && members == seq![
            ("id"@, Json::Number(e.id as nat)),
            ("ts_ms"@, Json::Number(e.ts_ms as nat)),
            ("data_hex"@, Json::Text(json::hex_encoded(e.data))),
            (
                "matched_rule"@,
                match e.matched_rule {
                    Some(rule) => Json::Text(rule),
                    None => Json::Null,
                },
            ),
        ],
{
    json::lemma_hex_encoded(e.data);
    lemma_reads_event(e);
    lemma_read_all(json::event_object(e), Json::Object(event_values(e)));
}

spec fn event_values(e: capture::EventView) -> Seq<(Seq<char>, Json)> {
    seq![
        ("id"@, Json::Number(e.id as nat)),
        ("ts_ms"@, Json::Number(e.ts_ms as nat)),
        ("data_hex"@, Json::Text(json::hex_encoded(e.data))),
        (
            "matched_rule"@,
            match e.matched_rule {
                Some(rule) => Json::Text(rule),
                None => Json::Null,
            },
        ),
    ]
}

proof fn lemma_reads_event(e: capture::EventView)
    ensures
        reads(json::event_object(e), Json::Object(event_values(e))),
{
    let h = json::hex_encoded(e.data);
    let (v1, v2, v3) = (
        text::decimal(e.id as nat),
        text::decimal(e.ts_ms as nat),
        json::quoted(h),
    );
    let v4 = match e.matched_rule {
        Some(rule) => json::quoted(rule),
        None => "null"@,
    };
    let (l1, l2) = (
        "{"@ + (json::quoted("id"@) + ":"@),
        ","@ + (json::quoted("ts_ms"@) + ":"@),
    );
    let (l3, l4) = (
        ","@ + (json::quoted("data_hex"@) + ":"@),
        ","@ + (json::quoted("matched_rule"@) + ":"@),
    );
    let all = four_members(
        ("id"@, v1),
        ("ts_ms"@, v2),
        ("data_hex"@, v3),
        ("matched_rule"@, v4),
    );
    let vals = event_values(e);
    lemma_reads_number(e.id as nat);
    lemma_reads_number(e.ts_ms as nat);
    lemma_reads_text(h);
    lemma_reads_null();
    if let Some(rule) = e.matched_rule {
        lemma_reads_text(rule);
    }
    assert(members_read(all, vals));
    lemma_reads_object(all, vals);
    lemma_four_members(
        ("id"@, v1),
        ("ts_ms"@, v2),
        ("data_hex"@, v3),
        ("matched_rule"@, v4),
        l1,
        l2,
        l3,
        l4,
    );
    lemma_event_text(e, l1, l2, l3, l4, v4);
}

proof fn lemma_event_text(
    e: capture::EventView,
    l1: Seq<char>,
    l2: Seq<char>,
    l3: Seq<char>,
    l4: Seq<char>,
    v4: Seq<char>,
)
    requires
        l1 == "{"@ + (json::quoted("id"@) + ":"@),
        l2 == ","@ + (json::quoted("ts_ms"@) + ":"@),
        l3 == ","@ + (json::quoted("data_hex"@) + ":"@),
        l4 == ","@ + (json::quoted("matched_rule"@) + ":"@),
        v4 == (match e.matched_rule {
            Some(rule) => json::quoted(rule),
            None => "null"@,
        }),
    ensures
        json::event_object(e) == l1 + (text::decimal(e.id as nat) + (l2 + (text::decimal(
            e.ts_ms as nat,
        ) + (l3 + (json::quoted(json::hex_encoded(e.data)) + (l4 + (v4 + "}"@))))))),
{
    lemma_other_keys();
    lemma_hex_is_plain(e.data);
    let h = json::hex_encoded(e.data);
    let q = "\""@;
    let (v1, v2) = (text::decimal(e.id as nat), text::decimal(e.ts_ms as nat));
    let end = v4 + "}"@;
    let s2 = l1 + v1;
    let s3 = s2 + l2;
    let s4 = s3 + v2;
    let s5 = s4 + (l3 + q);
    let s6 = s5 + h;
    let s7 = s6 + (q + l4);
    let t4 = l4 + end;
    lemma_append(s7, v4, "}"@);
    lemma_append(s6, q + l4, end);
    lemma_append(q, l4, end);
    lemma_append(s5, h, q + t4);
    lemma_append(s4, l3 + q, h + (q + t4));
    lemma_append(l3, q, h + (q + t4));
    lemma_append(h, q, t4);
    lemma_append(q, h + q, t4);
    lemma_append(q, h, q);
    let t3 = l3 + (json::quoted(h) + t4);
    lemma_append(s3, v2, t3);
    lemma_append(s2, l2, v2 + t3);
    lemma_append(l1, v1, l2 + (v2 + t3));
}

/// A list of ports is read as one object for each, in order, and each is what is
/// read of the port itself.
pub proof fn law_port_list_is_read_back(ports: Seq<port::PortView>)
    ensures
        read(json::port_list(ports)) matches Some(Json::Array(items)) && items.len() == ports.len()
            && forall|i: int|
            0 <= i < ports.len() ==> read(json::port_summary(#[trigger] ports[i])) == Some(
                items[i],
            ),
{
    let texts = ports.map_values(|p: port::PortView| json::port_summary(p));
    let vals = ports.map_values(|p: port::PortView| Json::Object(port_values(p, seq![])));
    assert forall|i: int| 0 <= i < texts.len() implies reads(#[trigger] texts[i], vals[i]) by {
        lemma_reads_summary(ports[i]);
    }
    lemma_reads_array(texts, vals);
    lemma_read_all(json::port_list(ports), Json::Array(vals));
    assert forall|i: int| 0 <= i < ports.len() implies read(
        json::port_summary(#[trigger] ports[i]),
    ) == Some(vals[i]) by {
        lemma_reads_summary(ports[i]);
        lemma_read_all(
            json::port_summary(ports[i]),
            Json::Object(port_values(ports[i], seq![])),
        );
    }
}

/// A list of events is read as one object for each, in order, and each is what is
/// read of the event itself.
pub proof fn law_event_list_is_read_back(events: Seq<capture::EventView>)
    ensures
        read(json::event_list(events)) matches Some(Json::Array(items)) && items.len()
            == events.len() && forall|i: int|
            0 <= i < events.len() ==> read(json::event_object(#[trigger] events[i])) == Some(
                items[i],
            ),
{
    let texts = events.map_values(|e: capture::EventView| json::event_object(e));
    let vals = events.map_values(|e: capture::EventView| Json::Object(event_values(e)));
    assert forall|i: int| 0 <= i < texts.len() implies reads(#[trigger] texts[i], vals[i]) by {
        lemma_reads_event(events[i]);
    }
    lemma_reads_array(texts, vals);
    lemma_read_all(json::event_list(events), Json::Array(vals));
    assert forall|i: int| 0 <= i < events.len() implies read(
        json::event_object(#[trigger] events[i]),
    ) == Some(vals[i]) by {
        lemma_reads_event(events[i]);
        lemma_read_all(json::event_object(events[i]), Json::Object(event_values(events[i])));
    }
}

proof fn lemma_read_body(s: Seq<char>)
    ensures
        read_body(encode_utf8(s)) == read(s),
{
    encode_utf8_valid_utf8(s);
    encode_utf8_decode_utf8(s);
}

/// Whether the members are, first of all, the name of a port, its device path, the
/// scenario that is active in it and the names of its scenarios.
pub open spec fn shows_port(members: Seq<(Seq<char>, Json)>, p: port::PortView) -> bool {
    &&& members.len() >= 4
    &&& members[0] == ("name"@, Json::Text(p.name))
    &&& members[1] == (
        "pty_path"@,
        Json::Text(
            match p.device_path {
                Some(path) => path,
                None => "<none>"@,
            },
        ),
    )
    &&& members[2] == ("active_scenario"@, Json::Text(p.active))
    &&& members[3] == ("scenarios"@, texts(p.compiled.order))
}

/// Whether a reply is a success with a JSON body that is read as `contents`.
pub open spec fn succeeds(outcome: http::OutcomeView, contents: Json) -> bool {
    outcome matches http::OutcomeView::Reply(r) && r.status == 200 && r.reason == "OK"@
        && r.content_type == "application/json"@ && read_body(r.body) == Some(contents)
}

/// A request to describe a port is answered with the state that the port is in:
/// its name, its device path, the scenario that is active, its scenarios, and the
/// triggers and the number of rules of the active one.
pub proof fn law_description_shows_the_state(
    ports: table::Pairs<port::PortView>,
    name: Seq<char>,
    p: port::PortView,
    payload: Option<Seq<char>>,
) -> (members: Seq<(Seq<char>, Json)>)
    requires
        table::lookup(ports, name) == Some(p),
    ensures
        succeeds(
            http::handled(
                ports,
                http::RouteView::Port(name, http::ActionView::Describe),
                payload,
            ).1,
            Json::Object(members),
        ),
        members.len() == 6,
        shows_port(members, p),
        members[4] == ("triggers"@, texts(table::names(p.scenario().triggers))),
        members[5] == ("input_rule_count"@, Json::Number(p.scenario().rules.len())),
{
    lemma_read_body(json::port_detail(p));
    law_port_is_read_back(p);
    read(json::port_detail(p))->0->Object_0
}

/// A request for the ports is answered with an object for each, in order, that
/// shows its name, its device path, the scenario that is active and its scenarios.
pub proof fn law_list_shows_every_port(
    ports: table::Pairs<port::PortView>,
    payload: Option<Seq<char>>,
) -> (items: Seq<Json>)
    ensures
        succeeds(
            http::handled(ports, http::RouteView::ListPorts, payload).1,
            Json::Array(items),
        ),
        items.len() == ports.len(),
        forall|i: int|
            0 <= i < ports.len() ==> ((#[trigger] items[i]) matches Json::Object(members)
                && members.len() == 4 && shows_port(members, ports[i].1)),
{
    let all = table::values(ports);
    lemma_read_body(json::port_list(all));
    law_port_list_is_read_back(all);
    let items = read(json::port_list(all))->0->Array_0;
    assert forall|i: int| 0 <= i < ports.len() implies ((
    #[trigger] items[i]) matches Json::Object(members) && members.len() == 4 && shows_port(
        members,
        ports[i].1,
    )) by {
        assert(all[i] == ports[i].1);
        lemma_summary_shows(all[i]);
        assert(read(json::port_summary(all[i])) == Some(items[i]));
    }
    items
}

proof fn lemma_summary_shows(p: port::PortView)
    ensures
        read(json::port_summary(p)) matches Some(Json::Object(members)) && members.len() == 4
            && shows_port(members, p),
{
    law_port_is_read_back(p);
}

/// After a port was switched to a scenario, the reply to the switch, the
/// description of the port and its entry in the list of ports all name that
/// scenario as the active one.
pub proof fn law_switch_is_reported(
    ports: table::Pairs<port::PortView>,
    name: Seq<char>,
    scenario: Seq<char>,
    k: int,
) -> (r: (Seq<(Seq<char>, Json)>, Seq<Json>))
    requires
        server::ports_wf(ports),
        0 <= k < ports.len(),
        ports[k].0 == name,
        exists|i: int|
            0 <= i < ports[k].1.compiled.scenarios.len() && (
            #[trigger] ports[k].1.compiled.scenarios[i]).0 == scenario,
    ensures
        ({
            let (after, outcome) = http::handled(
                ports,
                http::RouteView::Port(name, http::ActionView::SwitchScenario),
                Some(scenario),
            );
            &&& succeeds(
                outcome,
                Json::Object(
                    seq![("ok"@, Json::True), ("active_scenario"@, Json::Text(scenario))],
                ),
            )
            &&& succeeds(
                http::handled(
                    after,
                    http::RouteView::Port(name, http::ActionView::Describe),
                    None,
                ).1,
                Json::Object(r.0),
            )
            &&& r.0.len() == 6 && r.0[2] == ("active_scenario"@, Json::Text(scenario))
            &&& succeeds(
                http::handled(after, http::RouteView::ListPorts, None).1,
                Json::Array(r.1),
            )
            &&& r.1.len() == ports.len()
            &&& r.1[k] matches Json::Object(members) && members[2] == (
                "active_scenario"@,
                Json::Text(scenario),
            )
        }),
{
    let p = ports[k].1;
    let q = lemma_switched(ports, name, scenario, k);
    let after = ports.update(k, (name, q));
    law_switch_is_read_back(scenario);
    lemma_read_body(json::switched_object(scenario));
    let members = law_description_shows_the_state(after, name, q, None);
    let items = law_list_shows_every_port(after, None);
    assert(items[k] is Object);
    (members, items)
}

proof fn lemma_switched(
    ports: table::Pairs<port::PortView>,
    name: Seq<char>,
    scenario: Seq<char>,
    k: int,
) -> (q: port::PortView)
    requires
        server::ports_wf(ports),
        0 <= k < ports.len(),
        ports[k].0 == name,
        exists|i: int|
            0 <= i < ports[k].1.compiled.scenarios.len() && (
            #[trigger] ports[k].1.compiled.scenarios[i]).0 == scenario,
    ensures
        q.active == scenario,
        http::handled(
            ports,
            http::RouteView::Port(name, http::ActionView::SwitchScenario),
            Some(scenario),
        ) == (
            ports.update(k, (name, q)),
            http::OutcomeView::Reply(http::ok_reply(json::switched_object(scenario))),
        ),
        table::lookup(ports.update(k, (name, q)), name) == Some(q),
{
    let p = ports[k].1;
    assert forall|i: int| 0 <= i < k implies (#[trigger] ports[i]).0 != name by {
        assert(ports[i].0 != ports[k].0);
    }
    table::lemma_place_is(ports, name, k);
    port::law_switch_goes_where_it_is_told(p, scenario);
    let there = choose|i: int|
        0 <= i < p.compiled.scenarios.len() && (#[trigger] p.compiled.scenarios[i]).0 == scenario;
    assert(p.compiled.scenarios[there].0 == scenario);
    let q = p.switched(scenario)->Ok_0;
    table::law_insert_then_lookup(ports, name, q, name);
    q
}

/// Refusals say why: a path or a method that is not served, a port that does not
/// exist, a body that names no scenario, a scenario or a trigger that does not
/// exist. All are 404 but for the body, which is 400.
pub proof fn law_refusals_say_why(
    ports: table::Pairs<port::PortView>,
    name: Seq<char>,
    action: http::ActionView,
    payload: Option<Seq<char>>,
    word: Seq<char>,
)
    ensures
        http::handled(
            ports,
            http::RouteView::NotFound,
            payload,
        ).1 matches http::OutcomeView::Reply(r) && r.status == 404 && says_error(r, "not found"@),
        table::lookup(ports, name) is None ==> (http::handled(
            ports,
            http::RouteView::Port(name, action),
            payload,
        ).1 matches http::OutcomeView::Reply(r) && r.status == 404 && says_error(
            r,
            "unknown port"@,
        )),
        table::lookup(ports, name) matches Some(p) ==> {
            &&& http::handled(
                ports,
                http::RouteView::Port(name, http::ActionView::SwitchScenario),
                None,
            ).1 matches http::OutcomeView::Reply(r) && r.status == 400 && says_error(
                r,
                "expected {\"scenario\":\"name\"}"@,
            )
            &&& table::lookup(p.compiled.scenarios, word) is None ==> (http::handled(
                ports,
                http::RouteView::Port(name, http::ActionView::SwitchScenario),
                Some(word),
            ).1 matches http::OutcomeView::Reply(r) && r.status == 404 && says_error(
                r,
                "unknown scenario: "@ + word,
            ))
            &&& table::lookup(p.scenario().triggers, word) is None ==> (http::handled(
                ports,
                http::RouteView::Port(name, http::ActionView::FireTrigger(word)),
                payload,
            ).1 matches http::OutcomeView::Reply(r) && r.status == 404 && says_error(
                r,
                "unknown trigger: "@ + word,
            ))
        },
        http::fired_reply(word, Err(name)).status == 404,
        says_error(http::fired_reply(word, Err(name)), name),
{
    lemma_says_error("not found"@);
    lemma_says_error("unknown port"@);
    lemma_says_error("unknown scenario: "@ + word);
    lemma_says_error("unknown trigger: "@ + word);
    lemma_says_error(name);
    let expected = "expected {\"scenario\":\"name\"}"@;
    law_error_is_read_back(expected);
    lemma_read_body(json::error_object(expected));
}

/// Whether a reply is a JSON object whose one member is the error message, with the
/// reason that goes with its status.
pub open spec fn says_error(response: http::ResponseView, message: Seq<char>) -> bool {
    &&& response.content_type == "application/json"@
    &&& response.status == 404 ==> response.reason == "Not Found"@
    &&& response.status == 400 ==> response.reason == "Bad Request"@
    &&& read_body(response.body) matches Some(Json::Object(members)) && members == seq![
        ("error"@, Json::Text(message)),
    ]
}

proof fn lemma_says_error(message: Seq<char>)
    ensures
        says_error(http::missing_reply(message), message),
{
    law_error_is_read_back(message);
    lemma_read_body(json::error_object(message));
}

/// A trigger of the active scenario is fired by handing out its bytes to be
/// written to that port, and the reply after they were written names the trigger
/// and counts the bytes.
pub proof fn law_triggers_send_their_bytes(
    ports: table::Pairs<port::PortView>,
    name: Seq<char>,
    trigger: Seq<char>,
    payload: Option<Seq<char>>,
)
    requires
        server::ports_wf(ports),
        table::lookup(ports, name) is Some,
        table::lookup(table::lookup(ports, name)->0.scenario().triggers, trigger) is Some,
    ensures
        ({
            let bytes = table::lookup(
                table::lookup(ports, name)->0.scenario().triggers,
                trigger,
            )->0;
            let reply = http::fired_reply(trigger, Ok(bytes));
            &&& http::handled(
                ports,
                http::RouteView::Port(name, http::ActionView::FireTrigger(trigger)),
                payload,
            ).1 == (http::OutcomeView::Write { port: name, trigger, bytes })
            &&& reply.status == 200
            &&& reply.reason == "OK"@
            &&& reply.content_type == "application/json"@
            &&& read_body(reply.body) matches Some(Json::Object(members)) && members == seq![
                ("ok"@, Json::True),
                ("trigger"@, Json::Text(trigger)),
                ("bytes"@, Json::Number(bytes.len())),
                ("frame"@, Json::Text(crate::outside::lossy_text(bytes))),
            ]
        }),
{
    table::lemma_place(ports, name);
    let bytes = table::lookup(table::lookup(ports, name)->0.scenario().triggers, trigger)->0;
    let frame = crate::outside::lossy_text(bytes);
    law_fired_is_read_back(trigger, bytes.len(), frame);
    lemma_read_body(json::fired_object(trigger, bytes.len(), frame));
}

/// Raw bytes are handed out as they are.
pub proof fn law_raw_bytes_are_handed_out(
    ports: table::Pairs<port::PortView>,
    name: Seq<char>,
    p: port::PortView,
    payload: Option<Seq<char>>,
)
    requires
        table::lookup(ports, name) == Some(p),
    ensures
        http::handled(
            ports,
            http::RouteView::Port(name, http::ActionView::ReadRaw),
            payload,
        ).1 matches http::OutcomeView::Reply(r) && r.status == 200 && r.reason == "OK"@
            && r.content_type == "application/octet-stream"@ && r.body == p.capture.raw,
{
}

/// Events are handed out as objects, one for each with a greater number than the
/// one asked to start after, in order.
pub proof fn law_events_are_handed_out(
    ports: table::Pairs<port::PortView>,
    name: Seq<char>,
    p: port::PortView,
    since: u64,
    payload: Option<Seq<char>>,
) -> (r: (Seq<Json>, int))
    requires
        p.wf(),
        table::lookup(ports, name) == Some(p),
    ensures
        succeeds(
            http::handled(
                ports,
                http::RouteView::Port(name, http::ActionView::ReadEvents(since)),
                payload,
            ).1,
            Json::Array(r.0),
        ),
        0 <= r.1 <= p.capture.events.len(),
        r.0.len() == p.capture.events.len() - r.1,
        forall|i: int|
            0 <= i < p.capture.events.len() ==> ((#[trigger] p.capture.events[i]).id > since <==> r.1
                <= i),
        hands_out(r.0, p.capture.events, r.1),
{
    let events = p.capture.events;
    let kept = events.filter(capture::newer_than(since));
    let k = capture::law_polling_is_exact(p.capture, since);
    lemma_read_body(json::event_list(kept));
    law_event_list_is_read_back(kept);
    let items = read(json::event_list(kept))->0->Array_0;
    assert forall|i: int| 0 <= i < events.len() - k implies read(
        json::event_object(#[trigger] events[k + i]),
    ) == Some(items[i]) by {
        assert(kept[i] == events[k + i]);
    }
    (items, k)
}

/// Clearing what was captured is answered with success, and leaves nothing of it:
/// the raw bytes or the events, and nothing but those.
pub proof fn law_clearing_succeeds(
    ports: table::Pairs<port::PortView>,
    name: Seq<char>,
    p: port::PortView,
    payload: Option<Seq<char>>,
)
    requires
        table::lookup(ports, name) == Some(p),
    ensures
        ({
            let (after, outcome) = http::handled(
                ports,
                http::RouteView::Port(name, http::ActionView::ClearRaw),
                payload,
            );
            &&& succeeds(outcome, Json::Object(seq![("ok"@, Json::True)]))
            &&& table::lookup(after, name) matches Some(q) && q.capture.raw.len() == 0
                && q.capture.events == p.capture.events && q.capture.next_id == p.capture.next_id
                && q.active == p.active && q.compiled == p.compiled && q.framing == p.framing
        }),
        ({
            let (after, outcome) = http::handled(
                ports,
                http::RouteView::Port(name, http::ActionView::ClearEvents),
                payload,
            );
            &&& succeeds(outcome, Json::Object(seq![("ok"@, Json::True)]))
            &&& table::lookup(after, name) matches Some(q) && q.capture.events.len() == 0
                && q.capture.raw == p.capture.raw && q.capture.next_id == p.capture.next_id
                && q.active == p.active && q.compiled == p.compiled && q.framing == p.framing
        }),
{
    lemma_read_body("{\"ok\":true}"@);
    law_error_is_read_back(seq![]);
    table::law_insert_then_lookup(
        ports,
        name,
        http::handled_by(p, http::ActionView::ClearRaw, payload).0,
        name,
    );
    table::law_insert_then_lookup(
        ports,
        name,
        http::handled_by(p, http::ActionView::ClearEvents, payload).0,
        name,
    );
}

/// Whether the items are what is read of the events from `k` on.
pub open spec fn hands_out(items: Seq<Json>, events: Seq<capture::EventView>, k: int) -> bool {
    forall|i: int|
        0 <= i < events.len() - k ==> read(json::event_object(#[trigger] events[k + i])) == Some(
            items[i],
        )
}

proof fn lemma_read_body_text(t: Seq<char>, rest: Seq<char>)
    requires
        forall|i: int| 0 <= i < t.len() ==> #[trigger] t[i] > '\u{1f}',
    ensures
        read_text(cli::body_text(t) + rest) == (match read_text(rest) {
            Some((u, end)) => Some((t + u, end)),
            None => None,
        }),
    decreases t.len(),
{
    reveal(read_text);
    if t.len() == 0 {
        assert(cli::body_text(t) + rest =~= rest);
        if let Some((u, _)) = read_text(rest) {
            assert(t + u =~= u);
        }
    } else {
        let front = t.drop_last();
        let c = t.last();
        let tail = cli::body_char(c) + rest;
        assert(cli::body_text(t) + rest =~= cli::body_text(front) + tail);
        assert forall|i: int| 0 <= i < front.len() implies #[trigger] front[i] > '\u{1f}' by {
            assert(front[i] == t[i]);
        }
        lemma_read_body_text(front, tail);
        assert(t[t.len() - 1] > '\u{1f}');
        if c == '"' || c == '\\' {
            assert(tail.skip(2) =~= rest);
        } else {
            assert(tail.skip(1) =~= rest);
        }
        if let Some((u, _)) = read_text(rest) {
            assert(front + (seq![c] + u) =~= t + u);
        }
    }
}

/// The body of the command that switches a scenario is read as an object whose
/// member `scenario` is the scenario of the command, as long as its name holds no
/// control characters: those are written as they are.
pub proof fn law_scenario_command_is_read_back(cmd: &cli::Cmd)
    requires
        cmd is Scenario,
        forall|i: int|
            0 <= i < cmd->Scenario_scenario@.len() ==> #[trigger] cmd->Scenario_scenario@[i]
                > '\u{1f}',
    ensures
        cmd.planned().main matches Some(call) && (read_body(
            call.body,
        ) matches Some(Json::Object(members)) && members == seq![
            ("scenario"@, Json::Text(cmd->Scenario_scenario@)),
        ]),
{
    reveal(read_text);
    reveal(read_value);
    reveal(read_members);
    let t = cmd->Scenario_scenario@;
    let s = "{\"scenario\":\""@ + cli::body_text(t) + "\"}"@;
    reveal_strlit("{\"scenario\":\"");
    reveal_strlit("scenario");
    reveal_strlit("\"}");
    let inside = s.skip(1);
    let name = inside.skip(1);
    let colon = seq![':', '"'] + cli::body_text(t) + seq!['"', '}'];
    law_plain_text_needs_no_escape("scenario"@);
    let after_name = seq!['"'] + colon;
    assert(name =~= json::escaped("scenario"@) + after_name);
    lemma_read_text("scenario"@, after_name);
    assert(after_name.skip(1) =~= colon);
    assert("scenario"@ + Seq::<char>::empty() =~= "scenario"@);
    let value = colon.skip(1);
    let end = seq!['"', '}'];
    assert(value.skip(1) =~= cli::body_text(t) + end);
    lemma_read_body_text(t, end);
    assert(end.skip(1) =~= seq!['}']);
    assert(t + Seq::<char>::empty() =~= t);
    assert(read_value(value) == Some((Json::Text(t), seq!['}'])));
    assert(seq!['}'].skip(1) =~= seq![]);
    assert(read_members(inside) == Some(
        (seq![("scenario"@, Json::Text(t))], Seq::<char>::empty()),
    ));
    lemma_read_body(s);
}

} // verus!
