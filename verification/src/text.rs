//! Text building blocks: decimal numbers, whitespace, splitting and trimming.
//!
//! The specifications speak of a text as the sequence of its characters.
use vstd::prelude::*;
use vstd::utf8::*;

verus! {

// ---------------------------------------------------------------------------
// Equality and conversion
// ---------------------------------------------------------------------------

/// The contents of a list of strings.
pub open spec fn texts(list: Seq<String>) -> Seq<Seq<char>> {
    list.map_values(|s: String| s@)
}

/// The content of an optional string.
pub open spec fn text_option(s: Option<String>) -> Option<Seq<char>> {
    match s {
        Some(s) => Some(s@),
        None => None,
    }
}

/// A copy of an optional string.
pub fn clone_option(s: &Option<String>) -> (r: Option<String>)
    ensures
        text_option(r) == text_option(*s),
{
    match s {
        Some(s) => Some(s.clone()),
        None => None,
    }
}

/// Whether two byte slices hold the same bytes.
pub fn same_bytes(a: &[u8], b: &[u8]) -> (r: bool)
    ensures
        r == (a@ == b@),
{
    if a.len() != b.len() {
        return false;
    }
    let mut i: usize = 0;
    while i < a.len()
        invariant
            i <= a.len(),
            a.len() == b.len(),
            forall|j: int| 0 <= j < i ==> a@[j] == b@[j],
        decreases a.len() - i,
    {
        if a[i] != b[i] {
            return false;
        }
        i = i + 1;
    }
    assert(a@ =~= b@);
    true
}

/// Whether two strings hold the same text.
pub fn same_text(a: &str, b: &str) -> (r: bool)
    ensures
        r == (a@ == b@),
{
    let r = same_bytes(a.as_bytes(), b.as_bytes());
    proof {
        encode_utf8_decode_utf8(a@);
        encode_utf8_decode_utf8(b@);
    }
    r
}

/// Whether two lists hold the same texts in the same order.
pub fn same_texts(a: &Vec<String>, b: &Vec<String>) -> (r: bool)
    ensures
        r == (texts(a@) == texts(b@)),
{
    if a.len() != b.len() {
        assert(texts(a@).len() != texts(b@).len());
        return false;
    }
    let mut i: usize = 0;
    while i < a.len()
        invariant
            i <= a.len(),
            a.len() == b.len(),
            forall|j: int| 0 <= j < i ==> texts(a@)[j] == texts(b@)[j],
        decreases a.len() - i,
    {
        if !same_text(a[i].as_str(), b[i].as_str()) {
            assert(texts(a@)[i as int] != texts(b@)[i as int]);
            return false;
        }
        i = i + 1;
    }
    assert(texts(a@) =~= texts(b@));
    true
}

/// The characters of a string.
pub fn chars_of(s: &str) -> (r: Vec<char>)
    ensures
        r@ == s@,
{
    let mut out: Vec<char> = Vec::new();
    for c in it: s.chars()
        invariant
            out@ == it.seq().take(it.index() as int),
    {
        out.push(c);
    }
    out
}

/// The string made of the given characters.
pub fn text_of(chars: &[char]) -> (r: String)
    ensures
        r@ == chars@,
{
    let mut out = String::new();
    let mut i: usize = 0;
    while i < chars.len()
        invariant
            i <= chars.len(),
            out@ == chars@.take(i as int),
        decreases chars.len() - i,
    {
        out.push(chars[i]);
        assert(chars@.take(i + 1) =~= chars@.take(i as int).push(chars@[i as int]));
        i = i + 1;
    }
    assert(chars@.take(i as int) =~= chars@);
    out
}

/// The string made of the characters from `from` up to, not including, `to`.
pub fn text_between(chars: &[char], from: usize, to: usize) -> (r: String)
    requires
        from <= to <= chars@.len(),
    ensures
        r@ == chars@.subrange(from as int, to as int),
{
    text_of(&chars[from..to])
}

// ---------------------------------------------------------------------------
// Decimal numbers
// ---------------------------------------------------------------------------

/// The character of a decimal digit.
pub open spec fn digit_char(d: nat) -> char {
    ('0' as nat + d) as char
}

/// The decimal digits of a number, without leading zeros.
pub open spec fn decimal(n: nat) -> Seq<char>
    decreases n,
{
    if n < 10 {
        seq![digit_char(n)]
    } else {
        decimal(n / 10).push(digit_char(n % 10))
    }
}

/// Appends the decimal digits of `n`.
pub fn push_decimal(out: &mut String, n: u64)
    ensures
        final(out)@ == old(out)@ + decimal(n as nat),
    decreases n,
{
    if n >= 10 {
        push_decimal(out, n / 10);
    }
    let digit: u8 = (n % 10) as u8;
    out.push((48 + digit) as char);
}

/// The decimal digits of `n`.
pub fn decimal_text(n: u64) -> (r: String)
    ensures
        r@ == decimal(n as nat),
{
    let mut out = String::new();
    push_decimal(&mut out, n);
    out
}

/// Whether `c` is one of `0` to `9`.
pub open spec fn is_digit(c: char) -> bool {
    '0' <= c && c <= '9'
}

/// The number that a sequence of decimal digits denotes.
pub open spec fn digits_value(s: Seq<char>) -> nat
    decreases s.len(),
{
    if s.len() == 0 {
        0
    } else {
        digits_value(s.drop_last()) * 10 + (s.last() as nat - '0' as nat) as nat
    }
}

/// `s` without one leading `+`.
pub open spec fn without_plus(s: Seq<char>) -> Seq<char> {
    if s.len() > 0 && s[0] == '+' {
        s.skip(1)
    } else {
        s
    }
}

/// The number that a text denotes: an optional `+`, then one digit or more.
pub open spec fn number_of(s: Seq<char>) -> Option<nat> {
    let digits = without_plus(s);
    if digits.len() > 0 && (forall|i: int| 0 <= i < digits.len() ==> is_digit(digits[i])) {
        Some(digits_value(digits))
    } else {
        None
    }
}

/// Reads a number; `None` when the text is no number or does not fit.
pub fn parse_number(s: &str) -> (r: Option<u64>)
    ensures
        r == (match number_of(s@) {
            Some(n) if n <= u64::MAX => Some(n as u64),
            _ => None,
        }),
{
    let chars = chars_of(s);
    let mut start: usize = 0;
    if chars.len() > 0 && chars[0] == '+' {
        start = 1;
    }
    let ghost digits = without_plus(s@);
    assert(digits =~= s@.skip(start as int));
    if start == chars.len() {
        return None;
    }
    let mut value: u64 = 0;
    let mut fits = true;
    let mut i: usize = start;
    while i < chars.len()
        invariant
            start <= i <= chars.len(),
            chars@ == s@,
            digits == without_plus(s@),
            digits == s@.skip(start as int),
            digits.len() == chars.len() - start,
            forall|j: int| 0 <= j < i - start ==> is_digit(digits[j]),
            fits ==> value == digits_value(digits.take(i - start)),
            !fits ==> digits_value(digits.take(i - start)) > u64::MAX,
        decreases chars.len() - i,
    {
        let c = chars[i];
        assert(digits[i - start] == c);
        if c < '0' || c > '9' {
            assert(!is_digit(digits[i - start]));
            return None;
        }
        let d: u64 = (c as u32 - 48) as u64;
        assert(digits.take(i + 1 - start).drop_last() =~= digits.take(i - start));
        assert(digits.take(i + 1 - start).last() == c);
        if fits {
            if value > (u64::MAX - d) / 10 {
                fits = false;
            } else {
                value = value * 10 + d;
            }
        }
        i = i + 1;
    }
    assert(digits.take(i - start) =~= digits);
    if fits {
        Some(value)
    } else {
        None
    }
}

// ---------------------------------------------------------------------------
// Runs, splitting and trimming
// ---------------------------------------------------------------------------

/// The length of the longest prefix of `s` whose characters all satisfy `f`.
pub open spec fn run_len(s: Seq<char>, f: spec_fn(char) -> bool) -> nat
    decreases s.len(),
{
    if s.len() > 0 && f(s[0]) {
        1 + run_len(s.skip(1), f)
    } else {
        0
    }
}

/// Holds of every character but `c`.
pub open spec fn other_than(c: char) -> spec_fn(char) -> bool {
    |x: char| x != c
}

/// Holds of `c` alone.
pub open spec fn equal_to(c: char) -> spec_fn(char) -> bool {
    |x: char| x == c
}

/// The Unicode property `White_Space`.
pub open spec fn is_space(c: char) -> bool {
    ||| '\u{9}' <= c && c <= '\u{d}'
    ||| c == '\u{20}'
    ||| c == '\u{85}'
    ||| c == '\u{a0}'
    ||| c == '\u{1680}'
    ||| '\u{2000}' <= c && c <= '\u{200a}'
    ||| c == '\u{2028}'
    ||| c == '\u{2029}'
    ||| c == '\u{202f}'
    ||| c == '\u{205f}'
    ||| c == '\u{3000}'
}

/// Holds of whitespace.
pub open spec fn space() -> spec_fn(char) -> bool {
    |x: char| is_space(x)
}

/// Holds of everything but whitespace.
pub open spec fn nonspace() -> spec_fn(char) -> bool {
    |x: char| !is_space(x)
}

/// What `run_len` counts.
pub proof fn lemma_run_len(s: Seq<char>, f: spec_fn(char) -> bool)
    ensures
        run_len(s, f) <= s.len(),
        forall|i: int| 0 <= i < run_len(s, f) ==> f(#[trigger] s[i]),
        run_len(s, f) < s.len() ==> !f(s[run_len(s, f) as int]),
    decreases s.len(),
{
    if s.len() > 0 && f(s[0]) {
        lemma_run_len(s.skip(1), f);
        let n = run_len(s.skip(1), f);
        assert forall|i: int| 0 <= i < 1 + n implies f(#[trigger] s[i]) by {
            if i > 0 {
                assert(s.skip(1)[i - 1] == s[i]);
            }
        }
    }
}

/// A prefix that satisfies `f` throughout and cannot be extended is the run.
pub proof fn lemma_run_len_is(s: Seq<char>, f: spec_fn(char) -> bool, k: nat)
    requires
        k <= s.len(),
        forall|i: int| 0 <= i < k ==> f(#[trigger] s[i]),
        k < s.len() ==> !f(s[k as int]),
    ensures
        run_len(s, f) == k,
{
    lemma_run_len(s, f);
    if run_len(s, f) < k {
        assert(f(s[run_len(s, f) as int]));
    }
    if run_len(s, f) > k {
        assert(f(s[k as int]));
    }
}

/// The parts of `s` between the occurrences of `sep`, empty parts included.
pub open spec fn split(s: Seq<char>, sep: char) -> Seq<Seq<char>>
    decreases s.len(),
{
    let k = run_len(s, other_than(sep)) as int;
    if k < s.len() {
        seq![s.take(k)] + split(s.skip(k + 1), sep)
    } else {
        seq![s]
    }
}

/// The parts of `s` before and after the first `sep`.
pub open spec fn split_first(s: Seq<char>, sep: char) -> Option<(Seq<char>, Seq<char>)> {
    let k = run_len(s, other_than(sep)) as int;
    if k < s.len() {
        Some((s.take(k), s.skip(k + 1)))
    } else {
        None
    }
}

/// `s` without the leading characters that are `c`.
pub open spec fn strip_leading(s: Seq<char>, c: char) -> Seq<char> {
    s.skip(run_len(s, equal_to(c)) as int)
}

/// `s` without leading whitespace.
pub open spec fn trim_start(s: Seq<char>) -> Seq<char> {
    s.skip(run_len(s, space()) as int)
}

/// `s` without trailing whitespace.
pub open spec fn trim_end(s: Seq<char>) -> Seq<char>
    decreases s.len(),
{
    if s.len() > 0 && is_space(s.last()) {
        trim_end(s.drop_last())
    } else {
        s
    }
}

/// `s` without whitespace at either end.
pub open spec fn trim(s: Seq<char>) -> Seq<char> {
    trim_end(trim_start(s))
}

/// The maximal runs of characters that are not whitespace.
pub open spec fn words(s: Seq<char>) -> Seq<Seq<char>>
    decreases s.len(),
{
    let t = trim_start(s);
    let k = run_len(t, nonspace()) as int;
    if 0 < k <= t.len() && t.len() <= s.len() {
        seq![t.take(k)] + words(t.skip(k))
    } else {
        seq![]
    }
}

/// Whether `c` is whitespace.
pub fn char_is_space(c: char) -> (r: bool)
    ensures
        r == is_space(c),
{
    ('\u{9}' <= c && c <= '\u{d}') || c == '\u{20}' || c == '\u{85}' || c == '\u{a0}' || c
        == '\u{1680}' || ('\u{2000}' <= c && c <= '\u{200a}') || c == '\u{2028}' || c == '\u{2029}'
        || c == '\u{202f}' || c == '\u{205f}' || c == '\u{3000}'
}

/// The first position at or after `from` that holds `sep`, or the length.
fn find_char(chars: &[char], from: usize, sep: char) -> (r: usize)
    requires
        from <= chars@.len(),
    ensures
        from <= r <= chars@.len(),
        r - from == run_len(chars@.skip(from as int), other_than(sep)),
{
    let mut i: usize = from;
    while i < chars.len() && chars[i] != sep
        invariant
            from <= i <= chars.len(),
            forall|j: int| from <= j < i ==> chars@[j] != sep,
        decreases chars.len() - i,
    {
        i = i + 1;
    }
    proof {
        lemma_run_len_is(chars@.skip(from as int), other_than(sep), (i - from) as nat);
    }
    i
}

/// The first position at or after `from` that holds no whitespace, or the length.
fn skip_spaces(chars: &[char], from: usize) -> (r: usize)
    requires
        from <= chars@.len(),
    ensures
        from <= r <= chars@.len(),
        r - from == run_len(chars@.skip(from as int), space()),
{
    let mut i: usize = from;
    while i < chars.len() && char_is_space(chars[i])
        invariant
            from <= i <= chars.len(),
            forall|j: int| from <= j < i ==> is_space(#[trigger] chars@[j]),
        decreases chars.len() - i,
    {
        i = i + 1;
    }
    proof {
        lemma_run_len_is(chars@.skip(from as int), space(), (i - from) as nat);
    }
    i
}

/// The first position at or after `from` that holds whitespace, or the length.
fn skip_word(chars: &[char], from: usize) -> (r: usize)
    requires
        from <= chars@.len(),
    ensures
        from <= r <= chars@.len(),
        r - from == run_len(chars@.skip(from as int), nonspace()),
{
    let mut i: usize = from;
    while i < chars.len() && !char_is_space(chars[i])
        invariant
            from <= i <= chars.len(),
            forall|j: int| from <= j < i ==> !is_space(#[trigger] chars@[j]),
        decreases chars.len() - i,
    {
        i = i + 1;
    }
    proof {
        lemma_run_len_is(chars@.skip(from as int), nonspace(), (i - from) as nat);
    }
    i
}

/// Cuts a text at every `sep`.
pub fn split_text(s: &str, sep: char) -> (r: Vec<String>)
    ensures
        texts(r@) == split(s@, sep),
{
    let chars = chars_of(s);
    let mut out: Vec<String> = Vec::new();
    let mut start: usize = 0;
    let mut done = false;
    assert(s@.skip(0) =~= s@);
    while !done
        invariant
            start <= chars.len(),
            chars@ == s@,
            !done ==> split(s@, sep) == texts(out@) + split(s@.skip(start as int), sep),
            done ==> split(s@, sep) == texts(out@),
        decreases (if done { 0 } else { chars.len() - start + 1 }),
    {
        let end = find_char(chars.as_slice(), start, sep);
        let ghost from = start as int;
        let ghost rest = s@.skip(from);
        let ghost before = texts(out@);
        let part = text_between(chars.as_slice(), start, end);
        assert(part@ =~= rest.take(end - start));
        out.push(part);
        assert(texts(out@) =~= before.push(part@));
        if end < chars.len() {
            start = end + 1;
            assert(rest.skip(end - from + 1) =~= s@.skip(start as int));
            assert(split(s@, sep) =~= texts(out@) + split(s@.skip(start as int), sep));
        } else {
            assert(part@ =~= rest);
            assert(split(s@, sep) =~= texts(out@));
            done = true;
        }
    }
    out
}

/// Cuts a text at the first `sep`, if it holds one.
pub fn split_text_once(s: &str, sep: char) -> (r: Option<(String, String)>)
    ensures
        match r {
            Some((head, tail)) => split_first(s@, sep) == Some((head@, tail@)),
            None => split_first(s@, sep) is None,
        },
{
    let chars = chars_of(s);
    assert(s@.skip(0) =~= s@);
    let end = find_char(chars.as_slice(), 0, sep);
    if end < chars.len() {
        let head = text_between(chars.as_slice(), 0, end);
        let tail = text_between(chars.as_slice(), end + 1, chars.len());
        assert(head@ =~= s@.take(end as int));
        assert(tail@ =~= s@.skip(end + 1));
        Some((head, tail))
    } else {
        None
    }
}

/// Removes the leading characters that are `c`.
pub fn strip_leading_text(s: &str, c: char) -> (r: String)
    ensures
        r@ == strip_leading(s@, c),
{
    let chars = chars_of(s);
    let mut i: usize = 0;
    while i < chars.len() && chars[i] == c
        invariant
            i <= chars.len(),
            forall|j: int| 0 <= j < i ==> chars@[j] == c,
        decreases chars.len() - i,
    {
        i = i + 1;
    }
    proof {
        lemma_run_len_is(s@, equal_to(c), i as nat);
    }
    let r = text_between(chars.as_slice(), i, chars.len());
    assert(r@ =~= s@.skip(i as int));
    r
}

/// Removes whitespace at both ends.
pub fn trim_text(s: &str) -> (r: String)
    ensures
        r@ == trim(s@),
{
    let chars = chars_of(s);
    assert(s@.skip(0) =~= s@);
    let start = skip_spaces(chars.as_slice(), 0);
    let mut end: usize = chars.len();
    assert(s@.subrange(start as int, end as int) =~= s@.skip(start as int));
    while end > start && char_is_space(chars[end - 1])
        invariant
            start <= end <= chars.len(),
            chars@ == s@,
            trim_end(s@.subrange(start as int, end as int)) == trim(s@),
        decreases end,
    {
        assert(s@.subrange(start as int, end as int).drop_last() =~= s@.subrange(
            start as int,
            end - 1,
        ));
        end = end - 1;
    }
    text_between(chars.as_slice(), start, end)
}

/// The words of a text.
pub fn words_of(s: &str) -> (r: Vec<String>)
    ensures
        texts(r@) == words(s@),
{
    let chars = chars_of(s);
    let mut out: Vec<String> = Vec::new();
    assert(s@.skip(0) =~= s@);
    let mut start = skip_spaces(chars.as_slice(), 0);
    assert(texts(out@) + words(s@.skip(0)) =~= words(s@));
    let mut from: usize = 0;
    while start < chars.len()
        invariant
            from <= start <= chars.len(),
            chars@ == s@,
            start - from == run_len(s@.skip(from as int), space()),
            words(s@) == texts(out@) + words(s@.skip(from as int)),
        decreases chars.len() - from,
    {
        let end = skip_word(chars.as_slice(), start);
        let ghost before = texts(out@);
        let ghost rest = s@.skip(from as int);
        let word = text_between(chars.as_slice(), start, end);
        proof {
            lemma_run_len(rest, space());
            assert(rest.skip(start - from) =~= s@.skip(start as int));
            lemma_run_len(s@.skip(start as int), nonspace());
            assert(s@.skip(start as int)[0] == rest[start - from]);
            assert(word@ =~= s@.skip(start as int).take(end - start));
            assert(s@.skip(start as int).skip(end - start) =~= s@.skip(end as int));
        }
        out.push(word);
        assert(texts(out@) =~= before.push(word@));
        assert(words(s@) =~= texts(out@) + words(s@.skip(end as int)));
        from = end;
        start = skip_spaces(chars.as_slice(), end);
    }
    proof {
        assert(s@.skip(from as int).skip(start - from) =~= Seq::<char>::empty());
        assert(words(s@.skip(from as int)) =~= Seq::<Seq<char>>::empty());
    }
    out
}

// ---------------------------------------------------------------------------
// Laws
// ---------------------------------------------------------------------------

proof fn lemma_decimal(n: nat)
    ensures
        decimal(n).len() > 0,
        forall|i: int| 0 <= i < decimal(n).len() ==> is_digit(#[trigger] decimal(n)[i]),
        digits_value(decimal(n)) == n,
    decreases n,
{
    let last = digit_char(n % 10);
    assert(is_digit(last) && last as nat - '0' as nat == n % 10);
    if n < 10 {
        assert(decimal(n).drop_last() =~= seq![]);
        assert(digits_value(seq![]) == 0);
        assert(decimal(n).last() == last);
    } else {
        lemma_decimal(n / 10);
        assert(decimal(n).drop_last() =~= decimal(n / 10));
        assert(decimal(n).last() == last);
    }
}

/// A number that was written in decimal is read back.
pub proof fn law_decimal_is_read_back(n: nat)
    ensures
        number_of(decimal(n)) == Some(n),
{
    lemma_decimal(n);
    assert(is_digit(decimal(n)[0]));
}

/// The decimal digits hold no whitespace.
pub proof fn lemma_decimal_is_one_word(n: nat)
    ensures
        decimal(n).len() > 0,
        forall|i: int|
            0 <= i < decimal(n).len() ==> '0' <= #[trigger] decimal(n)[i] && decimal(n)[i] <= '9',
{
    lemma_decimal(n);
    assert forall|i: int| 0 <= i < decimal(n).len() implies '0' <= #[trigger] decimal(n)[i]
        && decimal(n)[i] <= '9' by {
        assert(is_digit(decimal(n)[i]));
    }
}

/// Cutting before the first separator.
pub proof fn lemma_split_step(head: Seq<char>, sep: char, rest: Seq<char>)
    requires
        forall|i: int| 0 <= i < head.len() ==> #[trigger] head[i] != sep,
    ensures
        split(head, sep) == seq![head],
        split(head + seq![sep] + rest, sep) == seq![head] + split(rest, sep),
        split_first(head, sep) is None,
        split_first(head + seq![sep] + rest, sep) == Some((head, rest)),
{
    let s = head + seq![sep] + rest;
    lemma_run_len_is(head, other_than(sep), head.len());
    assert forall|i: int| 0 <= i < head.len() implies other_than(sep)(#[trigger] s[i]) by {
        assert(s[i] == head[i]);
    }
    lemma_run_len_is(s, other_than(sep), head.len());
    assert(s.take(head.len() as int) =~= head);
    assert(s.skip(head.len() as int + 1) =~= rest);
}

/// The first word, and the words after it.
pub proof fn lemma_words_step(head: Seq<char>, space_char: char, rest: Seq<char>)
    requires
        head.len() > 0,
        forall|i: int| 0 <= i < head.len() ==> !is_space(#[trigger] head[i]),
        is_space(space_char),
    ensures
        words(head + seq![space_char] + rest) == seq![head] + words(rest),
{
    let s = head + seq![space_char] + rest;
    assert(s[0] == head[0]);
    lemma_run_len_is(s, space(), 0);
    assert(s.skip(0) =~= s);
    assert forall|i: int| 0 <= i < head.len() implies nonspace()(#[trigger] s[i]) by {
        assert(s[i] == head[i]);
    }
    assert(s[head.len() as int] == space_char);
    lemma_run_len_is(s, nonspace(), head.len());
    assert(s.take(head.len() as int) =~= head);
    let tail = seq![space_char] + rest;
    assert(s.skip(head.len() as int) =~= tail);
    assert(tail.skip(1) =~= rest);
    assert(run_len(tail, space()) == 1 + run_len(rest, space()));
    assert(tail.skip(1 + run_len(rest, space()) as int) =~= rest.skip(
        run_len(rest, space()) as int,
    )) by {
        lemma_run_len(rest, space());
    }
    lemma_run_len(rest, space());
    lemma_run_len(tail, space());
    assert(trim_start(tail) == trim_start(rest));
    assert(words(tail) == words(rest));
}

/// The encoding of a text is that of its parts, one after the other.
pub proof fn lemma_encode_joined(a: Seq<char>, b: Seq<char>)
    ensures
        encode_utf8(a + b) == encode_utf8(a) + encode_utf8(b),
    decreases a.len(),
{
    if a.len() == 0 {
        assert(a + b =~= b);
        assert(encode_utf8(a) + encode_utf8(b) =~= encode_utf8(b));
    } else {
        lemma_encode_joined(a.drop_first(), b);
        assert((a + b).drop_first() =~= a.drop_first() + b);
        assert(encode_utf8(a + b) =~= encode_utf8(a) + encode_utf8(b));
    }
}

/// Trimming takes off one space before and a line end after a text that
/// neither starts nor ends with whitespace.
pub proof fn lemma_trim_line(s: Seq<char>)
    requires
        s.len() > 0,
        !is_space(s[0]),
        !is_space(s.last()),
    ensures
        trim(seq![' '] + s + seq!['\r', '\n']) == s,
{
    let line = seq![' '] + s + seq!['\r', '\n'];
    assert(line[1] == s[0]);
    lemma_run_len_is(line, space(), 1);
    let start = line.skip(1);
    assert(start =~= s + seq!['\r', '\n']);
    assert(start.drop_last() =~= s + seq!['\r']);
    assert(start.drop_last().drop_last() =~= s);
    assert(trim_end(s) == s);
    assert(trim_end(start.drop_last()) == s);
    assert(trim_end(start) == s);
}

/// The decimal digits of a number below ten are its one digit; those of any other
/// are those of its tenth, followed by the digit that is left over.
pub proof fn law_decimal_digits(n: nat)
    ensures
        n < 10 ==> decimal(n) == seq![(48 + n) as char],
        n >= 10 ==> decimal(n) == decimal(n / 10) + seq![(48 + n % 10) as char],
{
}

/// What is read as a number: digits alone, each worth ten times what follows it,
/// with or without one `+` before them; nothing else is.
pub proof fn law_numbers_are_digits(s: Seq<char>, c: char)
    ensures
        '0' <= c && c <= '9' ==> number_of(seq![c]) == Some((c as nat - 48) as nat),
        '0' <= c && c <= '9' && number_of(s) is Some ==> number_of(s + seq![c]) == Some(
            number_of(s)->0 * 10 + (c as nat - 48) as nat,
        ),
        s.len() > 0 && s[0] != '+' ==> number_of(seq!['+'] + s) == number_of(s),
        s.len() == 0 ==> number_of(s) is None && number_of(seq!['+'] + s) is None,
        !('0' <= c && c <= '9') ==> number_of(s + seq![c]) is None,
{
    let one = seq![c];
    let more = s + seq![c];
    if '0' <= c && c <= '9' {
        assert(one.drop_last() =~= seq![]);
        assert(digits_value(one.drop_last()) == 0);
        assert(one.last() == c);
        assert(without_plus(one) == one);
        if number_of(s) is Some {
            let digits = without_plus(s);
            assert(without_plus(more) =~= digits + seq![c]);
            assert((digits + seq![c]).drop_last() =~= digits);
            assert forall|i: int| 0 <= i < digits.len() + 1 implies is_digit(
                #[trigger] (digits + seq![c])[i],
            ) by {
                if i < digits.len() {
                    assert(is_digit(digits[i]));
                }
            }
        }
    } else {
        let digits = without_plus(more);
        if digits.len() > 0 {
            assert(digits.last() == c);
            assert(!is_digit(digits[digits.len() - 1]));
        }
    }
    if s.len() > 0 && s[0] != '+' {
        assert((seq!['+'] + s).skip(1) =~= s);
    }
    if s.len() == 0 {
        assert((seq!['+'] + s).skip(1) =~= s);
    }
}

/// The parts with the separator between them.
pub open spec fn rejoined(parts: Seq<Seq<char>>, sep: char) -> Seq<char>
    decreases parts.len(),
{
    if parts.len() == 0 {
        seq![]
    } else if parts.len() == 1 {
        parts[0]
    } else {
        parts[0] + seq![sep] + rejoined(parts.skip(1), sep)
    }
}

/// The parts of a text hold no separator, and put together again with the
/// separator between them they are the text.
pub proof fn law_split_is_joined_back(s: Seq<char>, sep: char)
    ensures
        split(s, sep).len() > 0,
        rejoined(split(s, sep), sep) == s,
        forall|i: int, j: int|
            0 <= i < split(s, sep).len() && 0 <= j < split(s, sep)[i].len() ==> #[trigger] split(
                s,
                sep,
            )[i][j] != sep,
    decreases s.len(),
{
    let k = run_len(s, other_than(sep)) as int;
    lemma_run_len(s, other_than(sep));
    let parts = split(s, sep);
    if k < s.len() {
        let rest = s.skip(k + 1);
        law_split_is_joined_back(rest, sep);
        let later = split(rest, sep);
        assert(parts.skip(1) =~= later);
        assert(!other_than(sep)(s[k]));
        assert(s.take(k) + seq![sep] + rest =~= s);
        assert forall|i: int, j: int| 0 <= i < parts.len() && 0 <= j < parts[i].len() implies (
        #[trigger] parts[i][j]) != sep by {
            if i == 0 {
                assert(parts[i] == s.take(k));
                assert(other_than(sep)(s[j]));
            } else {
                assert(parts[i] == later[i - 1]);
                assert(later[i - 1][j] != sep);
            }
        }
    } else {
        assert forall|i: int, j: int| 0 <= i < parts.len() && 0 <= j < parts[i].len() implies (
        #[trigger] parts[i][j]) != sep by {
            assert(parts[i] == s);
            assert(other_than(sep)(s[j]));
        }
    }
}

/// A text is cut once at the first separator, and not at all where it has none.
pub proof fn law_split_first_cuts_once(s: Seq<char>, sep: char)
    ensures
        match split_first(s, sep) {
            Some((before, after)) => s == before + seq![sep] + after && forall|i: int|
                0 <= i < before.len() ==> #[trigger] before[i] != sep,
            None => forall|i: int| 0 <= i < s.len() ==> #[trigger] s[i] != sep,
        },
{
    let k = run_len(s, other_than(sep)) as int;
    lemma_run_len(s, other_than(sep));
    if k < s.len() {
        assert(!other_than(sep)(s[k]));
        assert(s =~= s.take(k) + seq![sep] + s.skip(k + 1));
        assert forall|i: int| 0 <= i < k implies #[trigger] s.take(k)[i] != sep by {
            assert(other_than(sep)(s[i]));
        }
    } else {
        assert forall|i: int| 0 <= i < s.len() implies #[trigger] s[i] != sep by {
            assert(other_than(sep)(s[i]));
        }
    }
}

/// Stripping takes off leading characters of the given kind, every one of them and
/// no others.
pub proof fn law_strip_takes_all(s: Seq<char>, c: char) -> (n: nat)
    ensures
        n <= s.len(),
        strip_leading(s, c) == s.skip(n as int),
        forall|i: int| 0 <= i < n ==> #[trigger] s[i] == c,
        n < s.len() ==> s[n as int] != c,
{
    let n = run_len(s, equal_to(c));
    lemma_run_len(s, equal_to(c));
    assert forall|i: int| 0 <= i < n implies #[trigger] s[i] == c by {
        assert(equal_to(c)(s[i]));
    }
    if n < s.len() {
        assert(!equal_to(c)(s[n as int]));
    }
    n
}

/// Trimming takes whitespace off both ends, and leaves none there.
pub proof fn law_trim_takes_whitespace(s: Seq<char>) -> (r: (Seq<char>, Seq<char>))
    ensures
        s == r.0 + trim(s) + r.1,
        forall|i: int| 0 <= i < r.0.len() ==> is_space(#[trigger] r.0[i]),
        forall|i: int| 0 <= i < r.1.len() ==> is_space(#[trigger] r.1[i]),
        trim(s).len() > 0 ==> !is_space(trim(s)[0]) && !is_space(trim(s).last()),
{
    let k = run_len(s, space()) as int;
    lemma_run_len(s, space());
    assert forall|i: int| 0 <= i < k implies is_space(#[trigger] s.take(k)[i]) by {
        assert(space()(s[i]));
    }
    let t = trim_start(s);
    let end = lemma_trim_end(t);
    assert(t == trim(s) + end);
    assert(s =~= s.take(k) + t);
    assert(s.take(k) + (trim(s) + end) =~= s.take(k) + trim(s) + end);
    if trim(s).len() > 0 {
        assert(trim(s)[0] == t[0]);
        assert(t[0] == s[k]);
        assert(!space()(s[k]));
    }
    (s.take(k), end)
}

proof fn lemma_trim_end(s: Seq<char>) -> (r: Seq<char>)
    ensures
        s == trim_end(s) + r,
        forall|i: int| 0 <= i < r.len() ==> is_space(#[trigger] r[i]),
        trim_end(s).len() > 0 ==> !is_space(trim_end(s).last()),
    decreases s.len(),
{
    if s.len() > 0 && is_space(s.last()) {
        let r = lemma_trim_end(s.drop_last());
        let front = s.drop_last();
        let kept = trim_end(front);
        assert(front == kept + r);
        assert(s =~= front.push(s.last()));
        assert((kept + r).push(s.last()) =~= kept + r.push(s.last()));
        r.push(s.last())
    } else {
        assert(s =~= s + Seq::<char>::empty());
        seq![]
    }
}

/// The words of a text are what whitespace leaves: a first word that whitespace
/// ends is followed by the words of the rest, leading whitespace does not count,
/// and a text without whitespace is one word.
pub proof fn law_words_are_between_spaces(head: Seq<char>, c: char, rest: Seq<char>)
    requires
        head.len() > 0,
        forall|i: int| 0 <= i < head.len() ==> !is_space(#[trigger] head[i]),
        is_space(c),
    ensures
        words(head + seq![c] + rest) == seq![head] + words(rest),
        words(seq![c] + rest) == words(rest),
        words(head) == seq![head],
        words(Seq::<char>::empty()).len() == 0,
{
    lemma_words_step(head, c, rest);
    let s = seq![c] + rest;
    let k = run_len(rest, space()) as int;
    lemma_run_len(rest, space());
    assert(s.skip(1) =~= rest);
    assert(space()(s[0]));
    assert(trim_start(s) =~= trim_start(rest));
    lemma_run_len_is(head, space(), 0);
    assert(head.skip(0) =~= head);
    assert forall|i: int| 0 <= i < head.len() implies nonspace()(#[trigger] head[i]) by {}
    lemma_run_len_is(head, nonspace(), head.len());
    assert(head.take(head.len() as int) =~= head);
    let none = head.skip(head.len() as int);
    assert(trim_start(none).len() == 0);
    assert(words(none) =~= seq![]);
    assert(words(head) =~= seq![head]);
}

/// Among the ASCII characters, whitespace is the space and the characters from the
/// tab to the carriage return.
pub proof fn law_ascii_whitespace(c: char)
    requires
        c as nat <= 127,
    ensures
        is_space(c) <==> c as nat == 32 || 9 <= c as nat <= 13,
{
}

/// Cutting off the last part.
pub proof fn lemma_split_last(before: Seq<char>, sep: char, part: Seq<char>)
    requires
        forall|i: int| 0 <= i < part.len() ==> #[trigger] part[i] != sep,
    ensures
        split(before + seq![sep] + part, sep) == split(before, sep).push(part),
    decreases before.len(),
{
    let all = before + seq![sep] + part;
    lemma_split_step(part, sep, seq![]);
    law_split_first_cuts_once(before, sep);
    match split_first(before, sep) {
        None => {
            lemma_split_step(before, sep, part);
            assert(split(all, sep) =~= split(before, sep).push(part));
        },
        Some((first, rest)) => {
            lemma_split_step(first, sep, rest);
            lemma_split_step(first, sep, rest + seq![sep] + part);
            assert(all =~= first + seq![sep] + (rest + seq![sep] + part));
            lemma_split_last(rest, sep, part);
            assert(split(all, sep) =~= split(before, sep).push(part));
        },
    }
}

} // verus!
