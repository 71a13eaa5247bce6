//! Input rules, compiled once so that matching a frame compiles nothing.
use crate::config::{InputRuleConfig, Match};
use crate::config;
use crate::outside;
use crate::text;
use vstd::prelude::*;

verus! {

/// Which frames a rule answers.
#[derive(Debug)]
pub enum Matcher {
    /// The frame is exactly these bytes.
    Exact(Vec<u8>),
    /// The expression matches somewhere in the frame.
    Regex(regex::bytes::Regex),
    /// The frame has the length of the pattern and equals it in the bits that
    /// are set in the mask. The pattern has no bit outside the mask.
    Mask { pattern: Vec<u8>, mask: Vec<u8> },
}

/// A compiled rule.
#[derive(Debug)]
pub struct CompiledRule {
    pub matcher: Matcher,
    pub response: Vec<u8>,
}

/// What a `Matcher` holds.
pub enum MatcherView {
    Exact(Seq<u8>),
    Regex(Seq<char>),
    Mask { pattern: Seq<u8>, mask: Seq<u8> },
}

/// What a `CompiledRule` holds.
pub struct RuleView {
    pub matcher: MatcherView,
    pub response: Seq<u8>,
}

impl View for Matcher {
    type V = MatcherView;

    open spec fn view(&self) -> MatcherView {
        match self {
            Matcher::Exact(bytes) => MatcherView::Exact(bytes@),
            Matcher::Regex(re) => MatcherView::Regex(outside::regex_pattern(*re)),
            Matcher::Mask { pattern, mask } => MatcherView::Mask { pattern: pattern@, mask: mask@ },
        }
    }
}

impl View for CompiledRule {
    type V = RuleView;

    open spec fn view(&self) -> RuleView {
        RuleView { matcher: self.matcher@, response: self.response@ }
    }
}

impl MatcherView {
    /// Whether the matcher matches a frame.
    pub open spec fn accepts(self, line: Seq<u8>) -> bool {
        match self {
            MatcherView::Exact(bytes) => line == bytes,
            MatcherView::Regex(pattern) => outside::regex_matches(pattern, line),
            MatcherView::Mask { pattern, mask } => line.len() == pattern.len() && forall|i: int|
                0 <= i < line.len() && i < mask.len() ==> #[trigger] line[i] & mask[i]
                    == pattern[i],
        }
    }
}

impl Matcher {
    /// Whether the matcher matches a frame.
    pub fn matches(&self, line: &[u8]) -> (r: bool)
        ensures
            r == self@.accepts(line@),
    {
        match self {
            Matcher::Exact(bytes) => text::same_bytes(line, bytes.as_slice()),
            Matcher::Regex(re) => outside::regex_is_match(re, line),
            Matcher::Mask { pattern, mask } => {
                if line.len() != pattern.len() {
                    return false;
                }
                let mut i: usize = 0;
                while i < line.len() && i < mask.len()
                    invariant
                        self@ == (MatcherView::Mask { pattern: pattern@, mask: mask@ }),
                        i <= line.len(),
                        line.len() == pattern.len(),
                        forall|j: int|
                            0 <= j < i && j < mask.len() ==> #[trigger] line@[j] & mask@[j]
                                == pattern@[j],
                    decreases line.len() - i,
                {
                    if line[i] & mask[i] != pattern[i] {
                        assert(line@[i as int] & mask@[i as int] != pattern@[i as int]);
                        return false;
                    }
                    i = i + 1;
                }
                true
            },
        }
    }
}

// ---------------------------------------------------------------------------
// Compilation
// ---------------------------------------------------------------------------

/// The bits of a pattern that are set in the mask, over their common length.
pub open spec fn masked(pattern: Seq<u8>, mask: Seq<u8>) -> Seq<u8> {
    Seq::new(
        if pattern.len() < mask.len() {
            pattern.len()
        } else {
            mask.len()
        },
        |i: int| pattern[i] & mask[i],
    )
}

/// The message about a pattern that does not compile, if it does not.
pub open spec fn pattern_problem(pattern: Seq<char>, error: Option<Seq<char>>) -> Option<
    Seq<char>,
> {
    match error {
        Some(e) => Some("regex "@ + outside::quoted_text(pattern) + ": "@ + e),
        None => None,
    }
}

/// The matcher of a rule, or the error message.
pub open spec fn compiled_matcher(rule: InputRuleConfig) -> Result<MatcherView, Seq<char>> {
    match rule.match_.resolved() {
        Err(e) => Err(e),
        Ok(config::MatchView::Exact(bytes)) => Ok(MatcherView::Exact(bytes)),
        Ok(config::MatchView::Regex(pattern)) => match pattern_problem(
            pattern,
            outside::regex_error(pattern),
        ) {
            Some(e) => Err(e),
            None => Ok(MatcherView::Regex(pattern)),
        },
        Ok(config::MatchView::Mask { pattern, mask }) => Ok(
            MatcherView::Mask { pattern: masked(pattern, mask), mask },
        ),
    }
}

/// The rules from `from` on, compiled, or the message about the first of them
/// that does not compile.
pub open spec fn compiled_rules(rules: Seq<InputRuleConfig>, from: int) -> Result<
    Seq<RuleView>,
    Seq<char>,
>
    decreases rules.len() - from,
{
    if from < 0 || from >= rules.len() {
        Ok(seq![])
    } else {
        match compiled_matcher(rules[from]) {
            Err(e) => Err("rule "@ + text::decimal(from as nat) + ": "@ + e),
            Ok(matcher) => match compiled_rules(rules, from + 1) {
                Err(e) => Err(e),
                Ok(rest) => Ok(
                    seq![RuleView { matcher, response: rules[from].response@ }] + rest,
                ),
            },
        }
    }
}

/// The contents of a list of compiled rules.
pub open spec fn rules_of(list: Seq<CompiledRule>) -> Seq<RuleView> {
    list.map_values(|r: CompiledRule| r@)
}

/// The matcher for a pattern, or the message about it, given what came of
/// compiling it.
pub fn regex_matcher(pattern: &str, compiled: Result<regex::bytes::Regex, String>) -> (r: Result<
    Matcher,
    String,
>)
    ensures
        match (compiled, r) {
            (Ok(re), Ok(m)) => m == Matcher::Regex(re),
            (Err(cause), Err(e)) => pattern_problem(pattern@, Some(cause@)) == Some(e@),
            _ => false,
        },
{
    match compiled {
        Ok(re) => Ok(Matcher::Regex(re)),
        Err(cause) => {
            let mut e = "regex ".to_owned();
            e.append(outside::quote_text(pattern).as_str());
            e.append(": ");
            e.append(cause.as_str());
            Err(e)
        },
    }
}

fn mask_bytes(pattern: &Vec<u8>, mask: &Vec<u8>) -> (r: Vec<u8>)
    ensures
        r@ == masked(pattern@, mask@),
{
    let mut out: Vec<u8> = Vec::new();
    let mut i: usize = 0;
    while i < pattern.len() && i < mask.len()
        invariant
            i <= pattern.len(),
            i <= mask.len(),
            out@.len() == i,
            forall|j: int| 0 <= j < i ==> #[trigger] out@[j] == masked(pattern@, mask@)[j],
        decreases pattern.len() - i,
    {
        out.push(pattern[i] & mask[i]);
        i = i + 1;
    }
    assert(out@ =~= masked(pattern@, mask@));
    out
}

fn compile_matcher(rule: &InputRuleConfig) -> (r: Result<Matcher, String>)
    ensures
        match r {
            Ok(m) => compiled_matcher(*rule) == Ok::<MatcherView, Seq<char>>(m@),
            Err(e) => compiled_matcher(*rule) == Err::<MatcherView, Seq<char>>(e@),
        },
{
    match rule.match_.resolve() {
        Err(e) => Err(e),
        Ok(Match::Exact(bytes)) => Ok(Matcher::Exact(bytes)),
        Ok(Match::Regex(pattern)) => regex_matcher(
            pattern.as_str(),
            outside::compile_regex(pattern.as_str()),
        ),
        Ok(Match::Mask { pattern, mask }) => Ok(
            Matcher::Mask { pattern: mask_bytes(&pattern, &mask), mask },
        ),
    }
}

/// Compiles the rules of a scenario, in order.
pub fn compile_rules(rules: &[InputRuleConfig]) -> (r: Result<Vec<CompiledRule>, String>)
    ensures
        match r {
            Ok(list) => compiled_rules(rules@, 0) == Ok::<Seq<RuleView>, Seq<char>>(
                rules_of(list@),
            ),
            Err(e) => compiled_rules(rules@, 0) == Err::<Seq<RuleView>, Seq<char>>(e@),
        },
{
    let mut out: Vec<CompiledRule> = Vec::new();
    let mut i: usize = 0;
    proof {
        if let Ok(rest) = compiled_rules(rules@, 0) {
            assert(rules_of(out@) + rest =~= rest);
        }
    }
    while i < rules.len()
        invariant
            i <= rules.len(),
            match compiled_rules(rules@, i as int) {
                Ok(rest) => compiled_rules(rules@, 0) == Ok::<Seq<RuleView>, Seq<char>>(
                    rules_of(out@) + rest,
                ),
                Err(e) => compiled_rules(rules@, 0) == Err::<Seq<RuleView>, Seq<char>>(e),
            },
        decreases rules.len() - i,
    {
        match compile_matcher(&rules[i]) {
            Err(cause) => {
                let mut e = "rule ".to_owned();
                e.append(text::decimal_text(i as u64).as_str());
                e.append(": ");
                e.append(cause.as_str());
                return Err(e);
            },
            Ok(matcher) => {
                let ghost before = rules_of(out@);
                let rule = CompiledRule { matcher, response: rules[i].response.0.clone() };
                let ghost view = rule@;
                out.push(rule);
                proof {
                    assert(rules_of(out@) =~= before.push(view));
                    if let Ok(rest) = compiled_rules(rules@, i + 1) {
                        assert(before + (seq![view] + rest) =~= rules_of(out@) + rest);
                    }
                }
            },
        }
        i = i + 1;
    }
    assert(rules_of(out@) + Seq::<RuleView>::empty() =~= rules_of(out@));
    Ok(out)
}

// ---------------------------------------------------------------------------
// Laws
// ---------------------------------------------------------------------------

/// A mask rule answers the frames that have the length of the pattern and equal
/// it in every bit that is set in the mask; the other bits do not count.
pub proof fn law_mask_counts_set_bits(rule: InputRuleConfig, line: Seq<u8>)
    requires
        rule.match_.resolved() matches Ok(config::MatchView::Mask { .. }),
    ensures
        compiled_matcher(rule) matches Ok(matcher) && rule.match_.mask matches Some(m)
            && (matcher.accepts(line) <==> line.len() == m.pattern@.len() && forall|i: int|
            0 <= i < line.len() ==> #[trigger] line[i] & m.mask@[i] == m.pattern@[i] & m.mask@[i]),
{
    let m = rule.match_.mask->0;
    let matcher = compiled_matcher(rule)->Ok_0;
    if matcher.accepts(line) {
        assert forall|i: int| 0 <= i < line.len() implies #[trigger] line[i] & m.mask@[i]
            == m.pattern@[i] & m.mask@[i] by {
            assert(masked(m.pattern@, m.mask@)[i] == m.pattern@[i] & m.mask@[i]);
        }
    }
}

/// Compilation keeps the number and the order of the rules, and their responses
/// verbatim.
pub proof fn law_responses_are_verbatim(rules: Seq<InputRuleConfig>, from: int)
    requires
        0 <= from <= rules.len(),
        compiled_rules(rules, from) is Ok,
    ensures
        compiled_rules(rules, from)->Ok_0.len() == rules.len() - from,
        forall|i: int|
            0 <= i < rules.len() - from ==> (#[trigger] compiled_rules(
                rules,
                from,
            )->Ok_0[i]).response == rules[from + i].response@,
    decreases rules.len() - from,
{
    if from < rules.len() {
        law_responses_are_verbatim(rules, from + 1);
        let rest = compiled_rules(rules, from + 1)->Ok_0;
        let all = compiled_rules(rules, from)->Ok_0;
        assert forall|i: int| 0 <= i < rules.len() - from implies (#[trigger] all[i]).response
            == rules[from + i].response@ by {
            if i > 0 {
                assert(all[i] == rest[i - 1]);
            }
        }
    }
}

/// What makes a rule compile, and what it then answers, in terms of the one field
/// of its match that is set: the very bytes, the lines in which the pattern
/// matches, or the lines of the right length that agree in the bits of the mask.
/// A rule that sets none or more than one does not compile.
pub proof fn law_rules_answer_what_they_ask_for(rule: InputRuleConfig, line: Seq<u8>)
    ensures
        match (rule.match_.exact, rule.match_.regex, rule.match_.mask) {
            (Some(bytes), None, None) => compiled_matcher(rule) matches Ok(m) && (m.accepts(line)
                <==> line == bytes@),
            (None, Some(pattern), None) => {
                &&& compiled_matcher(rule) is Ok <==> outside::regex_error(pattern@) is None
                &&& compiled_matcher(rule) matches Ok(m) ==> (m.accepts(line)
                    <==> outside::regex_matches(pattern@, line))
            },
            (None, None, Some(c)) => {
                &&& compiled_matcher(rule) is Ok <==> c.pattern@.len() == c.mask@.len()
                &&& compiled_matcher(rule) matches Ok(m) ==> (m.accepts(line) <==> line.len()
                    == c.pattern@.len() && forall|i: int|
                    0 <= i < line.len() ==> #[trigger] line[i] & c.mask@[i] == c.pattern@[i]
                        & c.mask@[i])
            },
            _ => compiled_matcher(rule) is Err,
        },
{
    if rule.match_.resolved() matches Ok(config::MatchView::Mask { .. }) {
        law_mask_counts_set_bits(rule, line);
    }
}

/// Whether a configured rule is for a frame.
pub open spec fn is_for(rule: InputRuleConfig, line: Seq<u8>) -> bool {
    ||| rule.match_.exact matches Some(bytes) && line == bytes@
    ||| rule.match_.regex matches Some(pattern) && outside::regex_matches(pattern@, line)
    ||| rule.match_.mask matches Some(c) && line.len() == c.pattern@.len() && forall|i: int|
        0 <= i < line.len() ==> #[trigger] line[i] & c.mask@[i] == c.pattern@[i] & c.mask@[i]
}

/// The rule at each place of a compiled list answers the frames that the rule at
/// the same place of the configuration is for, with the bytes given there.
pub proof fn law_rules_keep_their_places(rules: Seq<InputRuleConfig>, line: Seq<u8>)
    requires
        compiled_rules(rules, 0) is Ok,
    ensures
        compiled_rules(rules, 0)->Ok_0.len() == rules.len(),
        forall|i: int|
            0 <= i < rules.len() ==> {
                &&& (#[trigger] compiled_rules(rules, 0)->Ok_0[i]).matcher.accepts(line) <==> is_for(
                    rules[i],
                    line,
                )
                &&& compiled_rules(rules, 0)->Ok_0[i].response == rules[i].response@
            },
{
    law_responses_are_verbatim(rules, 0);
    lemma_matchers(rules, 0);
    let compiled = compiled_rules(rules, 0)->Ok_0;
    assert forall|i: int| 0 <= i < rules.len() implies ((
    #[trigger] compiled[i]).matcher.accepts(line) <==> is_for(rules[i], line))
        && compiled[i].response == rules[i].response@ by {
        assert(compiled_matcher(rules[0 + i]) == Ok::<MatcherView, Seq<char>>(
            compiled[i].matcher,
        ));
        law_rules_answer_what_they_ask_for(rules[i], line);
    }
}

proof fn lemma_matchers(rules: Seq<InputRuleConfig>, from: int)
    requires
        0 <= from <= rules.len(),
        compiled_rules(rules, from) is Ok,
    ensures
        compiled_rules(rules, from)->Ok_0.len() == rules.len() - from,
        forall|i: int|
            0 <= i < rules.len() - from ==> compiled_matcher(#[trigger] rules[from + i]) == Ok::<
                MatcherView,
                Seq<char>,
            >(compiled_rules(rules, from)->Ok_0[i].matcher),
    decreases rules.len() - from,
{
    if from < rules.len() {
        lemma_matchers(rules, from + 1);
        let rest = compiled_rules(rules, from + 1)->Ok_0;
        let all = compiled_rules(rules, from)->Ok_0;
        assert forall|i: int| 0 <= i < rules.len() - from implies compiled_matcher(
            #[trigger] rules[from + i],
        ) == Ok::<MatcherView, Seq<char>>(all[i].matcher) by {
            if i > 0 {
                assert(all[i] == rest[i - 1]);
                assert(rules[from + i] == rules[from + 1 + (i - 1)]);
            }
        }
    }
}

/// Rules compile up to the first that does not, which is told by its number.
pub proof fn lemma_first_rule_error(rules: Seq<InputRuleConfig>, from: int, n: int)
    requires
        0 <= from <= n < rules.len(),
        forall|i: int| from <= i < n ==> compiled_matcher(#[trigger] rules[i]) is Ok,
        compiled_matcher(rules[n]) is Err,
    ensures
        compiled_rules(rules, from) == Err::<Seq<RuleView>, Seq<char>>(
            "rule "@ + text::decimal(n as nat) + ": "@ + compiled_matcher(rules[n])->Err_0,
        ),
    decreases n - from,
{
    if from < n {
        lemma_first_rule_error(rules, from + 1, n);
        assert(compiled_matcher(rules[from]) is Ok);
    }
}

} // verus!
