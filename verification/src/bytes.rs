//! Config-level byte literals.
//!
//! A byte literal is either a plain text, which stands for its UTF-8 bytes, or
//! a map with exactly one of the keys `hex`, `base64`, `utf8` and `bytes`.
use crate::outside;
use crate::text;
use vstd::prelude::*;
use vstd::utf8::*;

verus! {

/// A decoded byte literal: what goes on the wire verbatim.
#[derive(Debug, Clone, PartialEq, Eq)]
pub struct Bytes(pub Vec<u8>);

impl View for Bytes {
    type V = Seq<u8>;

    open spec fn view(&self) -> Seq<u8> {
        self.0@
    }
}

impl<'a> vstd::std_specs::convert::FromSpecImpl<&'a str> for Bytes {
    open spec fn obeys_from_spec() -> bool {
        false
    }

    open spec fn from_spec(s: &'a str) -> Bytes {
        arbitrary()
    }
}

impl<'a> From<&'a str> for Bytes {
    fn from(s: &'a str) -> (r: Bytes)
        ensures
            r@ == encode_utf8(s@),
    {
        Bytes(s.as_bytes_vec())
    }
}

impl vstd::std_specs::convert::FromSpecImpl<String> for Bytes {
    open spec fn obeys_from_spec() -> bool {
        false
    }

    open spec fn from_spec(s: String) -> Bytes {
        arbitrary()
    }
}

impl From<String> for Bytes {
    fn from(s: String) -> (r: Bytes)
        ensures
            r@ == encode_utf8(s@),
    {
        Bytes(s.as_str().as_bytes_vec())
    }
}

impl vstd::std_specs::convert::FromSpecImpl<Vec<u8>> for Bytes {
    open spec fn obeys_from_spec() -> bool {
        true
    }

    open spec fn from_spec(v: Vec<u8>) -> Bytes {
        Bytes(v)
    }
}

impl From<Vec<u8>> for Bytes {
    fn from(v: Vec<u8>) -> (r: Bytes) {
        Bytes(v)
    }
}

// ---------------------------------------------------------------------------
// Hex
// ---------------------------------------------------------------------------

/// The value of a hexadecimal digit, in either case.
pub open spec fn hex_digit(c: char) -> Option<u8> {
    if '0' <= c && c <= '9' {
        Some((c as u32 - '0' as u32) as u8)
    } else if 'a' <= c && c <= 'f' {
        Some((c as u32 - 'a' as u32 + 10) as u8)
    } else if 'A' <= c && c <= 'F' {
        Some((c as u32 - 'A' as u32 + 10) as u8)
    } else {
        None
    }
}

/// What may stand between hexadecimal digits: ASCII whitespace, `:` and `_`.
pub open spec fn is_hex_separator(c: char) -> bool {
    c == ' ' || c == '\t' || c == '\n' || c == '\u{c}' || c == '\r' || c == ':' || c == '_'
}

/// Whether `s` starts with `0x` or `0X`.
pub open spec fn has_hex_prefix(s: Seq<char>) -> bool {
    s.len() > 1 && s[0] == '0' && (s[1] == 'x' || s[1] == 'X')
}

/// The digits of a hex text, with prefixes and separators left out, or the
/// first character that is none of these.
pub open spec fn hex_nibbles(s: Seq<char>) -> Result<Seq<u8>, char>
    decreases s.len(),
{
    if s.len() == 0 {
        Ok(seq![])
    } else if has_hex_prefix(s) {
        hex_nibbles(s.skip(2))
    } else if is_hex_separator(s[0]) {
        hex_nibbles(s.skip(1))
    } else {
        match (hex_digit(s[0]), hex_nibbles(s.skip(1))) {
            (None, _) => Err(s[0]),
            (Some(_), Err(c)) => Err(c),
            (Some(d), Ok(rest)) => Ok(seq![d] + rest),
        }
    }
}

/// Two digits to a byte, the higher one first.
pub open spec fn paired(nibbles: Seq<u8>) -> Seq<u8> {
    Seq::new(nibbles.len() / 2, |i: int| (nibbles[2 * i] * 16 + nibbles[2 * i + 1]) as u8)
}

/// The bytes of a hex text, or the error message.
pub open spec fn hex_decoded(s: Seq<char>) -> Result<Seq<u8>, Seq<char>> {
    match hex_nibbles(s) {
        Err(c) => Err("invalid hex character "@ + outside::quoted_char(c)),
        Ok(nibbles) => if nibbles.len() % 2 != 0 {
            Err("hex has odd number of digits ("@ + text::decimal(nibbles.len()) + ")"@)
        } else {
            Ok(paired(nibbles))
        },
    }
}

fn hex_digit_value(c: char) -> (r: Option<u8>)
    ensures
        r == hex_digit(c),
        r matches Some(d) ==> d < 16,
{
    if '0' <= c && c <= '9' {
        Some((c as u32 - '0' as u32) as u8)
    } else if 'a' <= c && c <= 'f' {
        Some((c as u32 - 'a' as u32 + 10) as u8)
    } else if 'A' <= c && c <= 'F' {
        Some((c as u32 - 'A' as u32 + 10) as u8)
    } else {
        None
    }
}

/// Decodes a hex text, ignoring ASCII whitespace, `:` and `_` separators and a
/// `0x` wherever it stands between digits. The error is meant for a reader.
pub fn decode_hex(s: &str) -> (r: Result<Vec<u8>, String>)
    ensures
        match r {
            Ok(bytes) => hex_decoded(s@) == Ok::<Seq<u8>, Seq<char>>(bytes@),
            Err(e) => hex_decoded(s@) == Err::<Seq<u8>, Seq<char>>(e@),
        },
{
    let chars = text::chars_of(s);
    let mut nibbles: Vec<u8> = Vec::new();
    let mut i: usize = 0;
    assert(s@.skip(0) =~= s@);
    while i < chars.len()
        invariant
            i <= chars.len(),
            chars@ == s@,
            forall|j: int| 0 <= j < nibbles@.len() ==> nibbles@[j] < 16,
            match hex_nibbles(s@.skip(i as int)) {
                Ok(rest) => hex_nibbles(s@) == Ok::<Seq<u8>, char>(nibbles@ + rest),
                Err(c) => hex_nibbles(s@) == Err::<Seq<u8>, char>(c),
            },
        decreases chars.len() - i,
    {
        let c = chars[i];
        let ghost rest = s@.skip(i as int);
        assert(rest[0] == c);
        assert(rest.skip(1) =~= s@.skip(i + 1));
        if c == '0' && i + 1 < chars.len() && (chars[i + 1] == 'x' || chars[i + 1] == 'X') {
            assert(rest[1] == chars@[i + 1]);
            assert(rest.skip(2) =~= s@.skip(i + 2));
            i = i + 2;
        } else if c == ' ' || c == '\t' || c == '\n' || c == '\u{c}' || c == '\r' || c == ':' || c
            == '_' {
            i = i + 1;
        } else {
            match hex_digit_value(c) {
                None => {
                    let mut e = "invalid hex character ".to_owned();
                    e.append(outside::quote_char(c).as_str());
                    return Err(e);
                },
                Some(d) => {
                    let ghost before = nibbles@;
                    nibbles.push(d);
                    proof {
                        if let Ok(tail) = hex_nibbles(s@.skip(i + 1)) {
                            assert(before + (seq![d] + tail) =~= nibbles@ + tail);
                        }
                    }
                    i = i + 1;
                },
            }
        }
    }
    assert(s@.skip(i as int) =~= Seq::<char>::empty());
    assert(nibbles@ + Seq::<u8>::empty() =~= nibbles@);
    if nibbles.len() % 2 != 0 {
        let mut e = "hex has odd number of digits (".to_owned();
        e.append(text::decimal_text(nibbles.len() as u64).as_str());
        e.append(")");
        return Err(e);
    }
    let mut out: Vec<u8> = Vec::new();
    let mut k: usize = 0;
    while k < nibbles.len()
        invariant
            k <= nibbles.len(),
            k == 2 * out.len(),
            nibbles.len() % 2 == 0,
            forall|j: int| 0 <= j < nibbles@.len() ==> nibbles@[j] < 16,
            forall|j: int| 0 <= j < out.len() ==> out@[j] == paired(nibbles@)[j],
        decreases nibbles.len() - k,
    {
        out.push(nibbles[k] * 16 + nibbles[k + 1]);
        k = k + 2;
    }
    assert(out@ =~= paired(nibbles@));
    Ok(out)
}

// ---------------------------------------------------------------------------
// Literals
// ---------------------------------------------------------------------------

/// A byte literal as it was written: a plain text, or a map of encodings.
#[derive(Debug, Clone)]
pub enum BytesRepr {
    Plain(String),
    Tagged(TaggedBytes),
}

/// The map form of a byte literal. A literal sets exactly one of the keys.
#[derive(Debug, Clone)]
pub struct TaggedBytes {
    pub hex: Option<String>,
    pub base64: Option<String>,
    pub utf8: Option<String>,
    pub bytes: Option<Vec<u8>>,
}

/// What a base64 text comes to, by what decoding it gave.
pub open spec fn base64_outcome(decoded: Result<Seq<u8>, Seq<char>>) -> Result<
    Seq<u8>,
    Seq<char>,
> {
    match decoded {
        Ok(bytes) => Ok(bytes),
        Err(e) => Err("invalid base64: "@ + e),
    }
}

impl TaggedBytes {
    /// How many of the keys are set.
    pub open spec fn keys_set(&self) -> nat {
        let hex: nat = if self.hex is Some { 1 } else { 0 };
        let base64: nat = if self.base64 is Some { 1 } else { 0 };
        let utf8: nat = if self.utf8 is Some { 1 } else { 0 };
        let bytes: nat = if self.bytes is Some { 1 } else { 0 };
        hex + base64 + utf8 + bytes
    }

    /// The bytes that the map stands for, or the error message.
    pub open spec fn decoded(&self) -> Result<Seq<u8>, Seq<char>> {
        if self.keys_set() == 0 {
            Err("byte literal map must set one of hex/base64/utf8/bytes"@)
        } else if self.keys_set() > 1 {
            Err("byte literal map must set only one of hex/base64/utf8/bytes"@)
        } else if let Some(h) = self.hex {
            hex_decoded(h@)
        } else if let Some(b) = self.base64 {
            base64_outcome(outside::base64_decoded(text::trim(b@)))
        } else if let Some(u) = self.utf8 {
            Ok(encode_utf8(u@))
        } else {
            Ok(self.bytes->0@)
        }
    }
}

impl BytesRepr {
    /// The bytes that the literal stands for, or the error message.
    pub open spec fn decoded(&self) -> Result<Seq<u8>, Seq<char>> {
        match self {
            BytesRepr::Plain(s) => Ok(encode_utf8(s@)),
            BytesRepr::Tagged(t) => t.decoded(),
        }
    }
}

/// What a base64 text comes to, by what decoding it gave.
pub fn base64_bytes(decoded: Result<Vec<u8>, String>) -> (r: Result<Vec<u8>, String>)
    ensures
        match (decoded, r) {
            (Ok(bytes), Ok(out)) => base64_outcome(Ok(bytes@)) == Ok::<Seq<u8>, Seq<char>>(out@),
            (Err(cause), Err(e)) => base64_outcome(Err(cause@)) == Err::<Seq<u8>, Seq<char>>(e@),
            _ => false,
        },
{
    match decoded {
        Ok(bytes) => Ok(bytes),
        Err(cause) => {
            let mut e = "invalid base64: ".to_owned();
            e.append(cause.as_str());
            Err(e)
        },
    }
}

fn decode_tagged(t: TaggedBytes) -> (r: Result<Vec<u8>, String>)
    ensures
        match r {
            Ok(bytes) => t.decoded() == Ok::<Seq<u8>, Seq<char>>(bytes@),
            Err(e) => t.decoded() == Err::<Seq<u8>, Seq<char>>(e@),
        },
{
    let mut set: u8 = 0;
    if t.hex.is_some() {
        set = set + 1;
    }
    if t.base64.is_some() {
        set = set + 1;
    }
    if t.utf8.is_some() {
        set = set + 1;
    }
    if t.bytes.is_some() {
        set = set + 1;
    }
    if set == 0 {
        return Err("byte literal map must set one of hex/base64/utf8/bytes".to_owned());
    }
    if set > 1 {
        return Err("byte literal map must set only one of hex/base64/utf8/bytes".to_owned());
    }
    if let Some(h) = t.hex {
        return decode_hex(h.as_str());
    }
    if let Some(b) = t.base64 {
        return base64_bytes(outside::base64_decode(text::trim_text(b.as_str()).as_str()));
    }
    if let Some(u) = t.utf8 {
        return Ok(u.as_str().as_bytes_vec());
    }
    match t.bytes {
        Some(bytes) => Ok(bytes),
        None => Ok(Vec::new()),
    }
}

impl Bytes {
    /// Decodes a byte literal.
    pub fn from_literal(literal: BytesRepr) -> (r: Result<Bytes, String>)
        ensures
            match r {
                Ok(bytes) => literal.decoded() == Ok::<Seq<u8>, Seq<char>>(bytes@),
                Err(e) => literal.decoded() == Err::<Seq<u8>, Seq<char>>(e@),
            },
    {
        match literal {
            BytesRepr::Plain(s) => Ok(Bytes::from(s)),
            BytesRepr::Tagged(t) => match decode_tagged(t) {
                Ok(bytes) => Ok(Bytes(bytes)),
                Err(e) => Err(e),
            },
        }
    }
}

// ---------------------------------------------------------------------------
// Laws
// ---------------------------------------------------------------------------

/// A hexadecimal digit in either case.
pub open spec fn digit_of(d: nat, upper: bool) -> char {
    if d < 10 {
        (48 + d) as char
    } else if upper {
        (55 + d) as char
    } else {
        (87 + d) as char
    }
}

/// Hexadecimal is read from the left. Two digits, in either case, are the byte of
/// which the first gives the higher half. Whitespace, `:` and `_` do not count, nor
/// does `0x`, wherever they stand. Any other character is refused by name, and so
/// is an odd number of digits.
pub proof fn law_hex_is_read_by_pairs(
    high: nat,
    low: nat,
    upper_high: bool,
    upper_low: bool,
    c: char,
    rest: Seq<char>,
)
    requires
        high < 16,
        low < 16,
    ensures
        hex_decoded(rest) is Ok && !(low == 0 && rest.len() > 0 && (rest[0] == 'x' || rest[0]
            == 'X')) ==> hex_decoded(
            seq![digit_of(high, upper_high), digit_of(low, upper_low)] + rest,
        ) == Ok::<Seq<u8>, Seq<char>>(seq![(16 * high + low) as u8] + hex_decoded(rest)->Ok_0),
        c == ' ' || c == '\t' || c == '\n' || c == '\r' || c == '\u{c}' || c == ':' || c == '_'
            ==> hex_decoded(seq![c] + rest) == hex_decoded(rest),
        hex_decoded(seq!['0', 'x'] + rest) == hex_decoded(rest),
        hex_decoded(seq!['0', 'X'] + rest) == hex_decoded(rest),
        c > 'f' || ('F' < c && c < '_') || c == '`' || (':' < c && c < 'A') || ('!' <= c && c <= '/')
            ==> hex_decoded(seq![c] + rest) == Err::<Seq<u8>, Seq<char>>(
            "invalid hex character "@ + outside::quoted_char(c),
        ),
        hex_decoded(Seq::<char>::empty()) == Ok::<Seq<u8>, Seq<char>>(seq![]),
        hex_decoded(rest) is Ok && !(rest.len() > 0 && (rest[0] == 'x' || rest[0] == 'X'))
            ==> hex_decoded(seq![digit_of(high, upper_high)] + rest) is Err,
{
    let (a, b) = (digit_of(high, upper_high), digit_of(low, upper_low));
    lemma_digit(high, upper_high);
    lemma_digit(low, upper_low);
    let both = seq![a, b] + rest;
    let tail = seq![b] + rest;
    assert(both.skip(1) =~= tail);
    assert(tail.skip(1) =~= rest);
    assert((seq![c] + rest).skip(1) =~= rest);
    assert((seq!['0', 'x'] + rest).skip(2) =~= rest);
    assert((seq!['0', 'X'] + rest).skip(2) =~= rest);
    let one = seq![a] + rest;
    assert(one.skip(1) =~= rest);
    if let Ok(nibbles) = hex_nibbles(rest) {
        if nibbles.len() % 2 == 0 && !(low == 0 && rest.len() > 0 && (rest[0] == 'x' || rest[0]
            == 'X')) {
            let all = seq![high as u8] + (seq![low as u8] + nibbles);
            assert(hex_nibbles(tail) == Ok::<Seq<u8>, char>(seq![low as u8] + nibbles));
            assert(hex_nibbles(both) == Ok::<Seq<u8>, char>(all));
            assert(paired(all) =~= seq![(16 * high + low) as u8] + paired(nibbles)) by {
                assert(all.len() / 2 == 1 + nibbles.len() / 2);
                assert forall|i: int| 0 <= i < paired(all).len() implies #[trigger] paired(all)[i]
                    == (seq![(16 * high + low) as u8] + paired(nibbles))[i] by {
                    if i > 0 {
                        assert(all[2 * i] == nibbles[2 * (i - 1)]);
                        assert(all[2 * i + 1] == nibbles[2 * (i - 1) + 1]);
                    }
                }
            }
        }
    }
    assert(hex_nibbles(Seq::<char>::empty()) =~= Ok::<Seq<u8>, char>(seq![]));
    assert(paired(Seq::<u8>::empty()) =~= seq![]);
}

proof fn lemma_digit(d: nat, upper: bool)
    requires
        d < 16,
    ensures
        hex_digit(digit_of(d, upper)) == Some(d as u8),
        !is_hex_separator(digit_of(d, upper)),
        digit_of(d, upper) != 'x' && digit_of(d, upper) != 'X',
        digit_of(d, upper) == '0' <==> d == 0,
{
}

/// What a byte literal stands for: a plain text for its UTF-8 bytes, and a map for
/// what its one key says. A map that sets no key or more than one is refused.
pub proof fn law_literals_stand_for_bytes(literal: BytesRepr)
    ensures
        match literal {
            BytesRepr::Plain(s) => literal.decoded() == Ok::<Seq<u8>, Seq<char>>(encode_utf8(s@)),
            BytesRepr::Tagged(t) => match (t.hex, t.base64, t.utf8, t.bytes) {
                (Some(h), None, None, None) => literal.decoded() == hex_decoded(h@),
                (None, Some(b), None, None) => match outside::base64_decoded(text::trim(b@)) {
                    Ok(bytes) => literal.decoded() == Ok::<Seq<u8>, Seq<char>>(bytes),
                    Err(e) => literal.decoded() == Err::<Seq<u8>, Seq<char>>(
                        "invalid base64: "@ + e,
                    ),
                },
                (None, None, Some(u), None) => literal.decoded() == Ok::<Seq<u8>, Seq<char>>(
                    encode_utf8(u@),
                ),
                (None, None, None, Some(bytes)) => literal.decoded() == Ok::<Seq<u8>, Seq<char>>(
                    bytes@,
                ),
                (None, None, None, None) => literal.decoded() == Err::<Seq<u8>, Seq<char>>(
                    "byte literal map must set one of hex/base64/utf8/bytes"@,
                ),
                _ => literal.decoded() == Err::<Seq<u8>, Seq<char>>(
                    "byte literal map must set only one of hex/base64/utf8/bytes"@,
                ),
            },
        },
{
}

} // verus!
