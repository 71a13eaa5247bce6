//! The calls that leave the verified code: functions of the standard library
//! and of other crates, with what the proofs take for granted about them.
//!
//! Where a result takes more than a few lines to describe but is fixed by the
//! arguments, it has a name here, and the contracts that depend on it speak of
//! that name.
use crate::text;
use base64::Engine;
use std::time::{Duration, SystemTime, UNIX_EPOCH};
use vstd::prelude::*;
use vstd::utf8::*;

verus! {

// ---------------------------------------------------------------------------
// Text
// ---------------------------------------------------------------------------

/// `String::push` appends one character at the end of the string.
pub assume_specification[ String::push ](s: &mut String, c: char)
    ensures
        final(s)@ == old(s)@.push(c),
;

/// The text that describes where and why a byte sequence stops being UTF-8.
pub uninterp spec fn utf8_error(bytes: Seq<u8>) -> Seq<char>;

/// `String::from_utf8`: the text that the bytes encode, when they are valid
/// UTF-8, else the error as it displays itself.
#[verifier::external_body]
pub(crate) fn text_from_utf8(bytes: Vec<u8>) -> (r: Result<String, String>)
    ensures
        match r {
            Ok(s) => valid_utf8(bytes@) && s@ == decode_utf8(bytes@),
            Err(e) => !valid_utf8(bytes@) && e@ == utf8_error(bytes@),
        },
{
    String::from_utf8(bytes).map_err(|e| e.to_string())
}

/// The text of a byte sequence in which whatever is not UTF-8 is replaced.
pub uninterp spec fn lossy_text(bytes: Seq<u8>) -> Seq<char>;

/// `String::from_utf8_lossy`: bytes that are valid UTF-8 are decoded as they
/// are. What stands in for invalid parts is left to the named result.
#[verifier::external_body]
pub(crate) fn text_from_utf8_lossy(bytes: &[u8]) -> (r: String)
    ensures
        r@ == lossy_text(bytes@),
        valid_utf8(bytes@) ==> r@ == decode_utf8(bytes@),
{
    String::from_utf8_lossy(bytes).into_owned()
}

/// The text that says why a text is no number of sixteen bits.
pub uninterp spec fn u16_error(s: Seq<char>) -> Seq<char>;

/// `str::parse` to a `u16`: an optional `+` and then decimal digits alone, of
/// which the value fits; else the error as it displays itself.
#[verifier::external_body]
pub(crate) fn parse_u16(s: &str) -> (r: Result<u16, String>)
    ensures
        match r {
            Ok(n) => text::number_of(s@) == Some(n as nat),
            Err(e) => e@ == u16_error(s@) && (text::number_of(s@) matches Some(n) ==> n
                > u16::MAX),
        },
{
    s.parse::<u16>().map_err(|e| e.to_string())
}

/// A character in quotes, escaped as a Rust literal would be.
pub uninterp spec fn quoted_char(c: char) -> Seq<char>;

/// The `{:?}` formatting of a `char`.
#[verifier::external_body]
pub(crate) fn quote_char(c: char) -> (r: String)
    ensures
        r@ == quoted_char(c),
{
    format!("{:?}", c)
}

/// A text in quotes, escaped as a Rust literal would be.
pub uninterp spec fn quoted_text(s: Seq<char>) -> Seq<char>;

/// The `{:?}` formatting of a `str`.
#[verifier::external_body]
pub(crate) fn quote_text(s: &str) -> (r: String)
    ensures
        r@ == quoted_text(s@),
{
    format!("{:?}", s)
}

// ---------------------------------------------------------------------------
// Base64
// ---------------------------------------------------------------------------

/// What padded standard-alphabet base64 decodes to, or the text of the error.
pub uninterp spec fn base64_decoded(s: Seq<char>) -> Result<Seq<u8>, Seq<char>>;

/// `base64::engine::general_purpose::STANDARD.decode`: the bytes, or the error
/// as it displays itself. Either depends on the text alone.
#[verifier::external_body]
pub(crate) fn base64_decode(s: &str) -> (r: Result<Vec<u8>, String>)
    ensures
        match r {
            Ok(bytes) => base64_decoded(s@) == Ok::<Seq<u8>, Seq<char>>(bytes@),
            Err(e) => base64_decoded(s@) == Err::<Seq<u8>, Seq<char>>(e@),
        },
{
    base64::engine::general_purpose::STANDARD.decode(s).map_err(|e| e.to_string())
}

// ---------------------------------------------------------------------------
// Time
// ---------------------------------------------------------------------------

/// The duration of a whole number of milliseconds.
pub uninterp spec fn millis_duration(millis: u64) -> Duration;

/// `Duration::from_millis`: the duration of that many milliseconds.
pub assume_specification[ Duration::from_millis ](millis: u64) -> (r: Duration)
    ensures
        r == millis_duration(millis),
;

/// The number of whole milliseconds in a duration.
pub uninterp spec fn whole_millis(duration: Duration) -> u128;

/// `Duration::as_millis`: the whole milliseconds of a duration. Of a duration
/// that was made from a number of milliseconds it gives back that number.
pub assume_specification[ Duration::as_millis ](duration: &Duration) -> (r: u128)
    ensures
        r == whole_millis(*duration),
        forall|millis: u64| *duration == #[trigger] millis_duration(millis) ==> r == millis,
;

/// A point in time.
#[verifier::external_type_specification]
#[verifier::external_body]
pub struct ExSystemTime(SystemTime);

/// `SystemTime::now`. Nothing is known of the clock.
pub assume_specification[ SystemTime::now ]() -> (r: SystemTime);

/// The time from the Unix epoch to a point in time, if that is not earlier.
pub uninterp spec fn epoch_distance(time: SystemTime) -> Option<Duration>;

/// `SystemTime::duration_since` with the Unix epoch. `None` when the point in
/// time is earlier.
#[verifier::external_body]
pub(crate) fn since_epoch(time: SystemTime) -> (r: Option<Duration>)
    ensures
        r == epoch_distance(time),
{
    time.duration_since(UNIX_EPOCH).ok()
}

// ---------------------------------------------------------------------------
// Regular expressions
// ---------------------------------------------------------------------------

/// A compiled regular expression over bytes.
#[verifier::external_type_specification]
#[verifier::external_body]
pub struct ExRegex(regex::bytes::Regex);

/// A pattern that says what a regular expression over bytes matches: the one
/// that it was compiled from, where that was done with the default settings.
pub uninterp spec fn regex_pattern(re: regex::bytes::Regex) -> Seq<char>;

/// Why a pattern is refused as a regular expression over bytes, if it is.
pub uninterp spec fn regex_error(pattern: Seq<char>) -> Option<Seq<char>>;

/// Whether a pattern matches anywhere in a byte sequence.
pub uninterp spec fn regex_matches(pattern: Seq<char>, line: Seq<u8>) -> bool;

/// `regex::bytes::Regex::new`, its error as it displays itself. A compiled
/// expression keeps the pattern that it came from.
#[verifier::external_body]
pub(crate) fn compile_regex(pattern: &str) -> (r: Result<regex::bytes::Regex, String>)
    ensures
        match r {
            Ok(re) => regex_error(pattern@) is None && regex_pattern(re) == pattern@,
            Err(e) => regex_error(pattern@) == Some(e@),
        },
{
    regex::bytes::Regex::new(pattern).map_err(|e| e.to_string())
}

/// `regex::bytes::Regex::is_match`: whether there is a match anywhere in the
/// line. The answer depends on the pattern and the line alone.
#[verifier::external_body]
pub(crate) fn regex_is_match(re: &regex::bytes::Regex, line: &[u8]) -> (r: bool)
    ensures
        r == regex_matches(regex_pattern(*re), line@),
{
    re.is_match(line)
}

// ---------------------------------------------------------------------------
// JSON
// ---------------------------------------------------------------------------

/// A JSON value.
#[verifier::external_type_specification]
#[verifier::external_body]
pub struct ExValue(serde_json::Value);

/// The JSON value that a byte sequence holds, if it holds one.
pub uninterp spec fn json_parsed(bytes: Seq<u8>) -> Option<serde_json::Value>;

/// The member of a JSON object that has the given key, if the value is an
/// object and has one.
pub uninterp spec fn json_member(value: serde_json::Value, key: Seq<char>) -> Option<
    serde_json::Value,
>;

/// The items of a JSON array, if the value is one.
pub uninterp spec fn json_items(value: serde_json::Value) -> Option<Seq<serde_json::Value>>;

/// The text of a JSON string, if the value is one.
pub uninterp spec fn json_text(value: serde_json::Value) -> Option<Seq<char>>;

/// `serde_json::from_slice` to a `Value`: the value that the bytes hold, or
/// nothing. Why a byte sequence is no JSON is not kept.
#[verifier::external_body]
pub(crate) fn json_parse(bytes: &[u8]) -> (r: Option<serde_json::Value>)
    ensures
        r == json_parsed(bytes@),
{
    serde_json::from_slice(bytes).ok()
}

/// `serde_json::Value::get` with a key: the member of that key, when the value
/// is an object that has one, else nothing.
#[verifier::external_body]
pub(crate) fn json_get<'a>(value: &'a serde_json::Value, key: &str) -> (r: Option<
    &'a serde_json::Value,
>)
    ensures
        match r {
            Some(member) => json_member(*value, key@) == Some(*member),
            None => json_member(*value, key@) is None,
        },
{
    value.get(key)
}

/// `serde_json::Value::as_array`: the items, in order, when the value is an
/// array, else nothing.
pub assume_specification[ serde_json::Value::as_array ](value: &serde_json::Value) -> (r: Option<
    &Vec<serde_json::Value>,
>)
    ensures
        match r {
            Some(items) => json_items(*value) == Some(items@),
            None => json_items(*value) is None,
        },
;

/// `serde_json::Value::as_str`: the text, when the value is a string, else
/// nothing.
pub assume_specification[ serde_json::Value::as_str ](value: &serde_json::Value) -> (r: Option<
    &str,
>)
    ensures
        match r {
            Some(s) => json_text(*value) == Some(s@),
            None => json_text(*value) is None,
        },
;

} // verus!
