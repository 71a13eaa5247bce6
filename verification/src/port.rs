//! The state of one port, and what it decides.
//!
//! A port compiles its configuration into scenarios. The active scenario says
//! which bytes a trigger sends and how a received frame is answered. The
//! transport itself is elsewhere: what is to be written is returned, and what
//! came of writing it is handed back.
use crate::capture;
use crate::capture::Capture;
use crate::config;
use crate::config::{InputRuleConfig, PortConfig, ScenarioConfig, TriggerConfig};
use crate::framing;
use crate::framing::FramingSpec;
use crate::matching;
use crate::matching::CompiledRule;
use crate::outside;
use crate::table;
use crate::table::Table;
use crate::text;
use std::time::{Duration, SystemTime};
use vstd::prelude::*;

verus! {

// ---------------------------------------------------------------------------
// Compiled scenarios
// ---------------------------------------------------------------------------

/// A scenario, ready to execute.
#[derive(Debug)]
pub struct CompiledScenario {
    pub name: String,
    pub triggers: Table<Vec<u8>>,
    pub input_rules: Vec<CompiledRule>,
}

/// What a `CompiledScenario` holds.
pub struct ScenarioView {
    pub name: Seq<char>,
    pub triggers: table::Pairs<Seq<u8>>,
    pub rules: Seq<matching::RuleView>,
}

impl View for CompiledScenario {
    type V = ScenarioView;

    open spec fn view(&self) -> ScenarioView {
        ScenarioView {
            name: self.name@,
            triggers: self.triggers@,
            rules: matching::rules_of(self.input_rules@),
        }
    }
}

/// The scenarios of a port, ready to execute.
#[derive(Debug)]
pub struct CompiledPort {
    pub scenarios: Table<CompiledScenario>,
    pub scenario_order: Vec<String>,
}

/// What a `CompiledPort` holds.
pub struct CompiledView {
    pub scenarios: table::Pairs<ScenarioView>,
    pub order: Seq<Seq<char>>,
}

impl View for CompiledPort {
    type V = CompiledView;

    open spec fn view(&self) -> CompiledView {
        CompiledView { scenarios: self.scenarios@, order: text::texts(self.scenario_order@) }
    }
}

/// The triggers by name. Of two with the same name the later one counts.
pub open spec fn compiled_triggers(triggers: Seq<TriggerConfig>) -> table::Pairs<Seq<u8>>
    decreases triggers.len(),
{
    if triggers.len() == 0 {
        seq![]
    } else {
        table::inserted(
            compiled_triggers(triggers.drop_last()),
            triggers.last().name@,
            triggers.last().response@,
        )
    }
}

/// A scenario, compiled, or the error message.
pub open spec fn compiled_scenario(scenario: ScenarioConfig) -> Result<ScenarioView, Seq<char>> {
    match matching::compiled_rules(scenario.input_rules@, 0) {
        Err(e) => Err("scenario "@ + scenario.name@ + ": "@ + e),
        Ok(rules) => Ok(
            ScenarioView {
                name: scenario.name@,
                triggers: compiled_triggers(scenario.triggers@),
                rules,
            },
        ),
    }
}

/// The scenarios by name, or the message about the first that does not compile.
/// Of two with the same name the later one counts.
pub open spec fn compiled_scenarios(scenarios: Seq<ScenarioConfig>) -> Result<
    table::Pairs<ScenarioView>,
    Seq<char>,
>
    decreases scenarios.len(),
{
    if scenarios.len() == 0 {
        Ok(seq![])
    } else {
        match compiled_scenarios(scenarios.drop_last()) {
            Err(e) => Err(e),
            Ok(pairs) => match compiled_scenario(scenarios.last()) {
                Err(e) => Err(e),
                Ok(view) => Ok(table::inserted(pairs, scenarios.last().name@, view)),
            },
        }
    }
}

/// The names of the scenarios as they are declared.
pub open spec fn declared_order(scenarios: Seq<ScenarioConfig>) -> Seq<Seq<char>> {
    scenarios.map_values(|s: ScenarioConfig| s.name@)
}

/// A port, compiled, or the error message.
pub open spec fn compiled_port(cfg: &PortConfig) -> Result<CompiledView, Seq<char>> {
    match compiled_scenarios(cfg.scenarios@) {
        Err(e) => Err(e),
        Ok(scenarios) => Ok(
            CompiledView { scenarios, order: declared_order(cfg.scenarios@) },
        ),
    }
}

impl CompiledView {
    /// Every scenario stands under its own name, and none stands there twice.
    pub open spec fn wf(self) -> bool {
        &&& table::distinct(self.scenarios)
        &&& forall|i: int|
            0 <= i < self.scenarios.len() ==> (#[trigger] self.scenarios[i]).1.name
                == self.scenarios[i].0
    }
}

fn compile_triggers(triggers: &Vec<TriggerConfig>) -> (r: Table<Vec<u8>>)
    ensures
        r@ == compiled_triggers(triggers@),
{
    let mut out: Table<Vec<u8>> = Table::new();
    let mut i: usize = 0;
    assert(triggers@.take(0) =~= seq![]);
    while i < triggers.len()
        invariant
            i <= triggers.len(),
            out@ == compiled_triggers(triggers@.take(i as int)),
        decreases triggers.len() - i,
    {
        assert(triggers@.take(i + 1).drop_last() =~= triggers@.take(i as int));
        out.insert(triggers[i].name.clone(), triggers[i].response.0.clone());
        i = i + 1;
    }
    assert(triggers@.take(i as int) =~= triggers@);
    out
}

/// Compiles one scenario.
pub fn compile_scenario(scenario: &ScenarioConfig) -> (r: Result<CompiledScenario, String>)
    ensures
        match r {
            Ok(c) => compiled_scenario(*scenario) == Ok::<ScenarioView, Seq<char>>(c@),
            Err(e) => compiled_scenario(*scenario) == Err::<ScenarioView, Seq<char>>(e@),
        },
{
    let triggers = compile_triggers(&scenario.triggers);
    match matching::compile_rules(scenario.input_rules.as_slice()) {
        Err(cause) => {
            let mut e = "scenario ".to_owned();
            e.append(scenario.name.as_str());
            e.append(": ");
            e.append(cause.as_str());
            Err(e)
        },
        Ok(input_rules) => Ok(
            CompiledScenario { name: scenario.name.clone(), triggers, input_rules },
        ),
    }
}

/// Compiles the scenarios of a port.
pub fn compile_port(cfg: &PortConfig) -> (r: Result<CompiledPort, String>)
    ensures
        match r {
            Ok(c) => compiled_port(cfg) == Ok::<CompiledView, Seq<char>>(c@),
            Err(e) => compiled_port(cfg) == Err::<CompiledView, Seq<char>>(e@),
        },
{
    let list = &cfg.scenarios;
    let mut scenarios: Table<CompiledScenario> = Table::new();
    let mut order: Vec<String> = Vec::new();
    let mut i: usize = 0;
    assert(list@.take(0) =~= seq![]);
    assert(list@.take(list@.len() as int) =~= list@);
    while i < list.len()
        invariant
            i <= list.len(),
            list@ == cfg.scenarios@,
            list@.take(list@.len() as int) == list@,
            compiled_scenarios(list@.take(i as int)) == Ok::<
                table::Pairs<ScenarioView>,
                Seq<char>,
            >(scenarios@),
            text::texts(order@) == declared_order(list@).take(i as int),
        decreases list.len() - i,
    {
        assert(list@.take(i + 1).drop_last() =~= list@.take(i as int));
        match compile_scenario(&list[i]) {
            Err(e) => {
                proof {
                    lemma_first_error(list@, i + 1);
                }
                return Err(e);
            },
            Ok(compiled) => {
                scenarios.insert(list[i].name.clone(), compiled);
            },
        }
        let ghost so_far = text::texts(order@);
        order.push(list[i].name.clone());
        assert(text::texts(order@) =~= so_far.push(list@[i as int].name@));
        assert(declared_order(list@).take(i + 1) =~= so_far.push(list@[i as int].name@));
        i = i + 1;
    }
    assert(declared_order(list@).take(i as int) =~= declared_order(list@));
    Ok(CompiledPort { scenarios, scenario_order: order })
}

/// A prefix that does not compile makes the whole not compile, for its reason.
proof fn lemma_first_error(scenarios: Seq<ScenarioConfig>, n: int)
    requires
        0 <= n <= scenarios.len(),
        compiled_scenarios(scenarios.take(n)) is Err,
    ensures
        compiled_scenarios(scenarios) == compiled_scenarios(scenarios.take(n)),
    decreases scenarios.len() - n,
{
    if n < scenarios.len() {
        assert(scenarios.take(n + 1).drop_last() =~= scenarios.take(n));
        lemma_first_error(scenarios, n + 1);
    } else {
        assert(scenarios.take(n) =~= scenarios);
    }
}

/// What comes out of compilation is well-formed.
pub proof fn lemma_compiled_wf(scenarios: Seq<ScenarioConfig>, order: Seq<Seq<char>>)
    requires
        compiled_scenarios(scenarios) is Ok,
    ensures
        (CompiledView { scenarios: compiled_scenarios(scenarios)->Ok_0, order }).wf(),
    decreases scenarios.len(),
{
    if scenarios.len() > 0 {
        lemma_compiled_wf(scenarios.drop_last(), order);
        let pairs = compiled_scenarios(scenarios.drop_last())->Ok_0;
        let name = scenarios.last().name@;
        let view = compiled_scenario(scenarios.last())->Ok_0;
        table::law_insert_then_lookup(pairs, name, view, name);
        table::lemma_place(pairs, name);
    }
}

// ---------------------------------------------------------------------------
// Triggers and rules
// ---------------------------------------------------------------------------

/// The bytes of a trigger, by name.
pub fn lookup_trigger<'a>(scenario: &'a CompiledScenario, name: &str) -> (r: Option<&'a [u8]>)
    ensures
        match r {
            Some(bytes) => table::lookup(scenario@.triggers, name@) == Some(bytes@),
            None => table::lookup(scenario@.triggers, name@) is None,
        },
{
    match scenario.triggers.get(name) {
        Some(bytes) => Some(bytes.as_slice()),
        None => None,
    }
}

/// Whether the rule at `i` is the first that matches.
pub open spec fn answers(rules: Seq<matching::RuleView>, line: Seq<u8>, i: int) -> bool {
    &&& 0 <= i < rules.len()
    &&& rules[i].matcher.accepts(line)
    &&& forall|j: int| 0 <= j < i ==> !(#[trigger] rules[j]).matcher.accepts(line)
}

/// Walks the rules in order and gives the index and the response of the first
/// that matches.
pub fn match_input_rule<'a>(scenario: &'a CompiledScenario, line: &[u8]) -> (r: Option<
    (usize, &'a [u8]),
>)
    ensures
        match r {
            Some((i, response)) => answers(scenario@.rules, line@, i as int) && response@
                == scenario@.rules[i as int].response,
            None => forall|i: int|
                0 <= i < scenario@.rules.len() ==> !(
                #[trigger] scenario@.rules[i]).matcher.accepts(line@),
        },
        r matches Some((i, _)) ==> forall|j: int|
            0 <= j < i ==> !(#[trigger] scenario@.rules[j]).matcher.accepts(line@),
{
    let rules = &scenario.input_rules;
    let mut i: usize = 0;
    while i < rules.len()
        invariant
            i <= rules.len(),
            rules@ == scenario.input_rules@,
            forall|j: int| 0 <= j < i ==> !(#[trigger] scenario@.rules[j]).matcher.accepts(line@),
        decreases rules.len() - i,
    {
        assert(scenario@.rules[i as int] == rules@[i as int]@);
        if rules[i].matcher.matches(line) {
            return Some((i, rules[i].response.as_slice()));
        }
        i = i + 1;
    }
    None
}

/// The bytes that a trigger sends, or the error message.
pub open spec fn triggered(scenario: ScenarioView, name: Seq<char>) -> Result<Seq<u8>, Seq<char>> {
    match table::lookup(scenario.triggers, name) {
        Some(bytes) => Ok(bytes),
        None => Err("unknown trigger: "@ + name),
    }
}

/// The bytes to write for a trigger. Nothing is to be written on an error.
pub fn fire_trigger_on(scenario: &CompiledScenario, name: &str) -> (r: Result<Vec<u8>, String>)
    ensures
        match r {
            Ok(bytes) => triggered(scenario@, name@) == Ok::<Seq<u8>, Seq<char>>(bytes@),
            Err(e) => triggered(scenario@, name@) == Err::<Seq<u8>, Seq<char>>(e@),
        },
{
    match lookup_trigger(scenario, name) {
        Some(bytes) => Ok(vstd::slice::slice_to_vec(bytes)),
        None => {
            let mut e = "unknown trigger: ".to_owned();
            e.append(name);
            Err(e)
        },
    }
}

/// What firing a trigger amounts to, once its bytes were written or were not.
pub fn finish_trigger(response: Vec<u8>, written: Result<(), String>) -> (r: Result<
    Vec<u8>,
    String,
>)
    ensures
        match (written, r) {
            (Ok(()), Ok(bytes)) => bytes@ == response@,
            (Err(cause), Err(e)) => e@ == "write master: "@ + cause@,
            _ => false,
        },
{
    match written {
        Ok(()) => Ok(response),
        Err(cause) => {
            let mut e = "write master: ".to_owned();
            e.append(cause.as_str());
            Err(e)
        },
    }
}

/// The label of the matched rule (`"<scenario>:<index>"`) and the response
/// bytes, neither of them when no rule matched.
pub type LineOutcome = (Option<String>, Option<Vec<u8>>);

/// What a `LineOutcome` holds.
pub open spec fn outcome_of(outcome: LineOutcome) -> (Option<Seq<char>>, Option<Seq<u8>>) {
    (
        text::text_option(outcome.0),
        match outcome.1 {
            Some(bytes) => Some(bytes@),
            None => None,
        },
    )
}

/// How a scenario answers a frame.
pub open spec fn answered(scenario: ScenarioView, line: Seq<u8>) -> (
    Option<Seq<char>>,
    Option<Seq<u8>>,
) {
    if exists|i: int| answers(scenario.rules, line, i) {
        let i = choose|i: int| answers(scenario.rules, line, i);
        (
            Some(scenario.name + ":"@ + text::decimal(i as nat)),
            Some(scenario.rules[i].response),
        )
    } else {
        (None, None)
    }
}

/// There is only one first rule that matches.
pub proof fn lemma_answered(scenario: ScenarioView, line: Seq<u8>, i: int)
    requires
        answers(scenario.rules, line, i),
    ensures
        answered(scenario, line) == (
            Some(scenario.name + ":"@ + text::decimal(i as nat)),
            Some(scenario.rules[i].response),
        ),
{
    let k = choose|k: int| answers(scenario.rules, line, k);
    if k < i {
        assert(!scenario.rules[k].matcher.accepts(line));
    }
    if i < k {
        assert(!scenario.rules[i].matcher.accepts(line));
    }
}

/// Matches a frame against the rules: the label of the first rule that matches
/// and the bytes to write in answer.
pub fn process_line_on(scenario: &CompiledScenario, line: &[u8]) -> (r: LineOutcome)
    ensures
        outcome_of(r) == answered(scenario@, line@),
{
    match match_input_rule(scenario, line) {
        None => (None, None),
        Some((i, response)) => {
            let mut label = scenario.name.clone();
            label.append(":");
            text::push_decimal(&mut label, i as u64);
            proof {
                lemma_answered(scenario@, line@, i as int);
            }
            (Some(label), Some(vstd::slice::slice_to_vec(response)))
        },
    }
}

/// What came of processing a frame: the label and the answer, or the label and why
/// the answer was not written.
pub open spec fn processed_of(result: Result<LineOutcome, (String, String)>) -> Result<
    (Option<Seq<char>>, Option<Seq<u8>>),
    (Seq<char>, Seq<char>),
> {
    match result {
        Ok(outcome) => Ok(outcome_of(outcome)),
        Err(e) => Err((e.0@, e.1@)),
    }
}

/// What processing a frame amounts to, given why its answer could not be written, if
/// it could not.
pub open spec fn processed(
    outcome: (Option<Seq<char>>, Option<Seq<u8>>),
    failure: Option<Seq<char>>,
) -> Result<(Option<Seq<char>>, Option<Seq<u8>>), (Seq<char>, Seq<char>)> {
    match (outcome.0, failure) {
        (Some(label), Some(cause)) => Err((label, cause)),
        _ => Ok(outcome),
    }
}

/// The label under which a frame is recorded.
pub open spec fn recorded(
    result: Result<(Option<Seq<char>>, Option<Seq<u8>>), (Seq<char>, Seq<char>)>,
) -> Option<Seq<char>> {
    match result {
        Ok(outcome) => outcome.0,
        Err(e) => Some(e.0),
    }
}

/// What processing a frame amounts to, once its answer was written or was not.
/// A failed write keeps the label, so that the frame can still be recorded with
/// it. Where no rule matched there was nothing to write.
pub fn finish_line(outcome: LineOutcome, written: Result<(), String>) -> (r: Result<
    LineOutcome,
    (String, String),
>)
    ensures
        match (outcome.0, written) {
            (Some(label), Err(cause)) => r matches Err(e) && e.0@ == label@ && e.1@ == cause@,
            _ => r == Ok::<LineOutcome, (String, String)>(outcome),
        },
        processed_of(r) == processed(
            outcome_of(outcome),
            match written {
                Ok(()) => None,
                Err(cause) => Some(cause@),
            },
        ),
{
    match (outcome.0, written) {
        (Some(label), Err(cause)) => Err((label, cause)),
        (label, _) => Ok((label, outcome.1)),
    }
}

/// The label under which a frame is recorded.
pub fn recorded_rule(result: Result<LineOutcome, (String, String)>) -> (r: Option<String>)
    ensures
        r == (match result {
            Ok(outcome) => outcome.0,
            Err(e) => Some(e.0),
        }),
        text::text_option(r) == recorded(processed_of(result)),
{
    match result {
        Ok(outcome) => outcome.0,
        Err(e) => Some(e.0),
    }
}

// ---------------------------------------------------------------------------
// Paths
// ---------------------------------------------------------------------------

/// The parts of a path that count: not the empty ones, and not `.` but at the
/// very start.
pub open spec fn counting_parts(parts: Seq<Seq<char>>) -> Seq<Seq<char>>
    decreases parts.len(),
{
    if parts.len() == 0 {
        seq![]
    } else if parts.last().len() == 0 || (parts.len() > 1 && parts.last() == "."@) {
        counting_parts(parts.drop_last())
    } else {
        counting_parts(parts.drop_last()).push(parts.last())
    }
}

/// Whether a path starts at the root.
pub open spec fn is_absolute(path: Seq<char>) -> bool {
    path.len() > 0 && path[0] == '/'
}

/// Whether two paths have the same parts and both or neither start at the root.
pub open spec fn same_path(a: Seq<char>, b: Seq<char>) -> bool {
    is_absolute(a) == is_absolute(b) && counting_parts(text::split(a, '/')) == counting_parts(
        text::split(b, '/'),
    )
}

fn path_parts(path: &str) -> (r: (bool, Vec<String>))
    ensures
        r.0 == is_absolute(path@),
        text::texts(r.1@) == counting_parts(text::split(path@, '/')),
{
    let chars = text::chars_of(path);
    let absolute = chars.len() > 0 && chars[0] == '/';
    let parts = text::split_text(path, '/');
    let ghost all = text::texts(parts@);
    let mut out: Vec<String> = Vec::new();
    let mut i: usize = 0;
    assert(all.take(0) =~= seq![]);
    assert(text::texts(out@) =~= seq![]);
    while i < parts.len()
        invariant
            i <= parts.len(),
            all == text::texts(parts@),
            text::texts(out@) == counting_parts(all.take(i as int)),
        decreases parts.len() - i,
    {
        let part = &parts[i];
        let ghost so_far = text::texts(out@);
        assert(all.take(i + 1).drop_last() =~= all.take(i as int));
        assert(all.take(i + 1).last() == part@);
        proof {
            reveal_strlit("");
            assert(part@.len() == 0 ==> part@ =~= ""@);
        }
        if !text::same_text(part.as_str(), "") && !(i > 0 && text::same_text(part.as_str(), ".")) {
            out.push(part.clone());
            assert(text::texts(out@) =~= so_far.push(part@));
        }
        i = i + 1;
    }
    assert(all.take(i as int) =~= all);
    (absolute, out)
}

fn paths_agree(a: &str, b: &str) -> (r: bool)
    ensures
        r == same_path(a@, b@),
{
    let (a_absolute, a_parts) = path_parts(a);
    let (b_absolute, b_parts) = path_parts(b);
    a_absolute == b_absolute && text::same_texts(&a_parts, &b_parts)
}

// ---------------------------------------------------------------------------
// Port state
// ---------------------------------------------------------------------------

/// The framing that a port configures.
pub open spec fn port_framing(cfg: &PortConfig) -> framing::FramingView {
    match cfg.framing {
        Some(framing) => framing::configured_framing(Some(&framing)),
        None => framing::default_framing(),
    }
}

/// What a `PortState` holds.
pub struct PortView {
    pub name: Seq<char>,
    /// The device path that clients see.
    pub device_path: Option<Seq<char>>,
    /// The link to the device path, where one was made.
    pub symlink: Option<Seq<char>>,
    /// The name of the active scenario.
    pub active: Seq<char>,
    pub compiled: CompiledView,
    pub framing: framing::FramingView,
    pub capture: capture::CaptureView,
}

impl PortView {
    /// The active scenario is one of the compiled ones, and the parts are
    /// well-formed.
    pub open spec fn wf(self) -> bool {
        &&& self.compiled.wf()
        &&& self.framing.wf()
        &&& table::lookup(self.compiled.scenarios, self.active) is Some
        &&& self.capture.wf()
    }

    /// The active scenario.
    pub open spec fn scenario(self) -> ScenarioView {
        table::lookup(self.compiled.scenarios, self.active)->0
    }

    /// The port with another scenario active, or the error message.
    pub open spec fn switched(self, name: Seq<char>) -> Result<PortView, Seq<char>> {
        if table::lookup(self.compiled.scenarios, name) is Some {
            Ok(PortView { active: name, ..self })
        } else {
            Err("unknown scenario: "@ + name)
        }
    }

    /// The port with another configuration, or the error message. The active
    /// scenario stays active where the new configuration has it, else the
    /// initial scenario becomes active.
    pub open spec fn swapped(self, cfg: &PortConfig) -> Result<PortView, Seq<char>> {
        match compiled_port(cfg) {
            Err(e) => Err(e),
            Ok(compiled) => {
                let framing = port_framing(cfg);
                if table::lookup(compiled.scenarios, self.active) is Some {
                    Ok(PortView { compiled, framing, ..self })
                } else if table::lookup(compiled.scenarios, cfg.initial_scenario@) is Some {
                    Ok(PortView { active: cfg.initial_scenario@, compiled, framing, ..self })
                } else {
                    Err("port "@ + cfg.name@ + ": no usable scenario after reload"@)
                }
            },
        }
    }

    /// How the device path is shown.
    pub open spec fn device_text(self) -> Seq<char> {
        match self.device_path {
            Some(path) => path,
            None => "<none>"@,
        }
    }
}

/// A port that has just been configured and has no device yet, or the error
/// message.
pub open spec fn spawned(cfg: &PortConfig) -> Result<PortView, Seq<char>> {
    match compiled_port(cfg) {
        Err(e) => Err(e),
        Ok(compiled) => if table::lookup(compiled.scenarios, cfg.initial_scenario@) is Some {
            Ok(
                PortView {
                    name: cfg.name@,
                    device_path: None,
                    symlink: None,
                    active: cfg.initial_scenario@,
                    compiled,
                    framing: port_framing(cfg),
                    capture: capture::CaptureView::empty(
                        cfg.capture.max_raw_bytes as nat,
                        cfg.capture.max_events as nat,
                    ),
                },
            )
        } else {
            Err("port "@ + cfg.name@ + ": initial scenario missing"@)
        },
    }
}

/// The state of one port.
pub struct PortState {
    name: String,
    device_path: Option<String>,
    symlink: Option<String>,
    active: String,
    compiled: CompiledPort,
    framing: FramingSpec,
    capture: Capture,
}

impl View for PortState {
    type V = PortView;

    closed spec fn view(&self) -> PortView {
        PortView {
            name: self.name@,
            device_path: text::text_option(self.device_path),
            symlink: text::text_option(self.symlink),
            active: self.active@,
            compiled: self.compiled@,
            framing: self.framing@,
            capture: self.capture@,
        }
    }
}

/// What came of waiting for bytes.
pub enum ReadEvent {
    /// Nothing arrived for the quiet period.
    Quiet,
    /// Bytes arrived.
    Data(Vec<u8>),
    /// The other end is closed.
    Eof,
    /// Reading failed.
    Failed,
}

/// What a reader does next.
pub enum ReaderStep {
    /// Handle the frames in order, then wait again.
    Frames(Vec<Vec<u8>>),
    /// Stop reading.
    Exit,
}

impl PortState {
    /// The state of a newly configured port, before its transport is opened.
    pub fn spawn(cfg: &PortConfig) -> (r: Result<PortState, String>)
        ensures
            match r {
                Ok(state) => spawned(cfg) == Ok::<PortView, Seq<char>>(state@) && state@.wf(),
                Err(e) => spawned(cfg) == Err::<PortView, Seq<char>>(e@),
            },
    {
        let compiled = match compile_port(cfg) {
            Ok(compiled) => compiled,
            Err(e) => return Err(e),
        };
        if compiled.scenarios.get(cfg.initial_scenario.as_str()).is_none() {
            let mut e = "port ".to_owned();
            e.append(cfg.name.as_str());
            e.append(": initial scenario missing");
            return Err(e);
        }
        proof {
            lemma_compiled_wf(cfg.scenarios@, declared_order(cfg.scenarios@));
        }
        Ok(
            PortState {
                name: cfg.name.clone(),
                device_path: None,
                symlink: None,
                active: cfg.initial_scenario.clone(),
                compiled,
                framing: FramingSpec::from_config(cfg.framing.as_ref()),
                capture: Capture::new(cfg.capture.max_raw_bytes, cfg.capture.max_events),
            },
        )
    }

    /// Notes the device that was opened for the port, and the link to it.
    pub fn attach(&mut self, device_path: Option<String>, symlink: Option<String>)
        requires
            old(self)@.wf(),
        ensures
            final(self)@ == (PortView {
                device_path: text::text_option(device_path),
                symlink: text::text_option(symlink),
                ..old(self)@
            }),
            final(self)@.wf(),
    {
        self.device_path = device_path;
        self.symlink = symlink;
    }

    /// The name of the port.
    pub fn name(&self) -> (r: &str)
        ensures
            r@ == self@.name,
    {
        self.name.as_str()
    }

    /// The device path for logs and replies, or `<none>`.
    pub fn device_path_str(&self) -> (r: String)
        ensures
            r@ == self@.device_text(),
    {
        match &self.device_path {
            Some(path) => path.clone(),
            None => "<none>".to_owned(),
        }
    }

    /// The link to the device, where one was made.
    pub fn symlink(&self) -> (r: Option<&str>)
        ensures
            match r {
                Some(link) => self@.symlink == Some(link@),
                None => self@.symlink is None,
            },
    {
        match &self.symlink {
            Some(link) => Some(link.as_str()),
            None => None,
        }
    }

    /// Whether the link is to be removed when the port goes, given where it leads
    /// by then: only a link to the device of this port is.
    pub fn owns_link(&self, points_to: &str) -> (r: bool)
        ensures
            r == (self@.symlink is Some && (self@.device_path matches Some(target) && same_path(
                target,
                points_to@,
            ))),
    {
        match (&self.symlink, &self.device_path) {
            (Some(_), Some(target)) => paths_agree(target.as_str(), points_to),
            _ => false,
        }
    }

    /// The active scenario.
    pub fn active(&self) -> (r: &CompiledScenario)
        requires
            self@.wf(),
        ensures
            r@ == self@.scenario(),
            r@.name == self@.active,
    {
        let r = self.compiled.scenarios.get(self.active.as_str()).unwrap();
        proof {
            table::lemma_place(self.compiled@.scenarios, self.active@);
        }
        r
    }

    /// All scenarios.
    pub fn compiled(&self) -> (r: &CompiledPort)
        ensures
            r@ == self@.compiled,
    {
        &self.compiled
    }

    /// The framing of the port.
    pub fn framing(&self) -> (r: &FramingSpec)
        ensures
            r@ == self@.framing,
    {
        &self.framing
    }

    /// What was captured.
    pub fn capture(&self) -> (r: &Capture)
        ensures
            r@ == self@.capture,
    {
        &self.capture
    }

    /// Replaces the configuration, keeping the device and what was captured.
    /// On an error nothing changes.
    pub fn swap_config(&mut self, cfg: &PortConfig) -> (r: Result<(), String>)
        requires
            old(self)@.wf(),
        ensures
            match r {
                Ok(()) => old(self)@.swapped(cfg) == Ok::<PortView, Seq<char>>(final(self)@),
                Err(e) => old(self)@.swapped(cfg) == Err::<PortView, Seq<char>>(e@) && final(self)@
                    == old(self)@,
            },
            final(self)@.wf(),
    {
        let compiled = match compile_port(cfg) {
            Ok(compiled) => compiled,
            Err(e) => return Err(e),
        };
        let keep = compiled.scenarios.get(self.active.as_str()).is_some();
        if !keep && compiled.scenarios.get(cfg.initial_scenario.as_str()).is_none() {
            let mut e = "port ".to_owned();
            e.append(cfg.name.as_str());
            e.append(": no usable scenario after reload");
            return Err(e);
        }
        proof {
            lemma_compiled_wf(cfg.scenarios@, declared_order(cfg.scenarios@));
        }
        if !keep {
            self.active = cfg.initial_scenario.clone();
        }
        self.compiled = compiled;
        self.framing = FramingSpec::from_config(cfg.framing.as_ref());
        Ok(())
    }

    /// Makes another scenario active. On an error nothing changes.
    pub fn switch_scenario(&mut self, name: &str) -> (r: Result<(), String>)
        requires
            old(self)@.wf(),
        ensures
            match r {
                Ok(()) => old(self)@.switched(name@) == Ok::<PortView, Seq<char>>(final(self)@),
                Err(e) => old(self)@.switched(name@) == Err::<PortView, Seq<char>>(e@)
                    && final(self)@ == old(self)@,
            },
            final(self)@.wf(),
    {
        if self.compiled.scenarios.get(name).is_some() {
            self.active = name.to_owned();
            Ok(())
        } else {
            let mut e = "unknown scenario: ".to_owned();
            e.append(name);
            Err(e)
        }
    }

    /// The bytes to write for a trigger of the active scenario.
    pub fn fire_trigger(&self, name: &str) -> (r: Result<Vec<u8>, String>)
        requires
            self@.wf(),
        ensures
            match r {
                Ok(bytes) => triggered(self@.scenario(), name@) == Ok::<Seq<u8>, Seq<char>>(
                    bytes@,
                ),
                Err(e) => triggered(self@.scenario(), name@) == Err::<Seq<u8>, Seq<char>>(e@),
            },
    {
        fire_trigger_on(self.active(), name)
    }

    /// How the active scenario answers a frame.
    pub fn answer_frame(&self, frame: &[u8]) -> (r: LineOutcome)
        requires
            self@.wf(),
        ensures
            outcome_of(r) == answered(self@.scenario(), frame@),
    {
        process_line_on(self.active(), frame)
    }

    /// Records a frame with the rule that answered it.
    pub fn record_frame(&mut self, frame: Vec<u8>, matched_rule: Option<String>)
        requires
            old(self)@.wf(),
            old(self)@.capture.next_id < u64::MAX,
        ensures
            exists|time: SystemTime|
                final(self)@ == (PortView {
                    capture: old(self)@.capture.with_event(
                        capture::stamp_of(#[trigger] outside::epoch_distance(time)),
                        frame@,
                        text::text_option(matched_rule),
                    ),
                    ..old(self)@
                }),
            final(self)@.wf(),
    {
        let ghost before = self.capture@;
        self.capture.push_event(frame, matched_rule);
        proof {
            let time = choose|time: SystemTime|
                self.capture@ == before.with_event(
                    capture::stamp_of(#[trigger] outside::epoch_distance(time)),
                    frame@,
                    text::text_option(matched_rule),
                );
            assert(self@ == (PortView {
                capture: old(self)@.capture.with_event(
                    capture::stamp_of(outside::epoch_distance(time)),
                    frame@,
                    text::text_option(matched_rule),
                ),
                ..old(self)@
            }));
        }
    }

    /// Empties the raw ring.
    pub fn clear_raw(&mut self)
        requires
            old(self)@.wf(),
        ensures
            final(self)@ == (PortView {
                capture: capture::CaptureView { raw: seq![], ..old(self)@.capture },
                ..old(self)@
            }),
            final(self)@.wf(),
    {
        self.capture.clear_raw();
    }

    /// Empties the event log.
    pub fn clear_events(&mut self)
        requires
            old(self)@.wf(),
        ensures
            final(self)@ == (PortView {
                capture: capture::CaptureView { events: seq![], ..old(self)@.capture },
                ..old(self)@
            }),
            final(self)@.wf(),
    {
        self.capture.clear_events();
    }

    /// One turn of the reader: captures the bytes that arrived and cuts them,
    /// with those that are waiting in `buf`, into frames. `spec` is the framing
    /// as it was before the wait.
    pub fn reader_step(
        &mut self,
        spec: &FramingSpec,
        buf: &mut Vec<u8>,
        event: ReadEvent,
    ) -> (r: ReaderStep)
        requires
            old(self)@.wf(),
            event matches ReadEvent::Data(chunk) ==> spec@.strategy.fits(old(buf)@ + chunk@),
        ensures
            match event {
                ReadEvent::Quiet => {
                    &&& r matches ReaderStep::Frames(frames) && framing::frames_of(frames@)
                        == spec@.idled(old(buf)@).0
                    &&& final(buf)@ == spec@.idled(old(buf)@).1
                    &&& final(self)@ == old(self)@
                },
                ReadEvent::Data(chunk) => {
                    &&& r matches ReaderStep::Frames(frames) && framing::frames_of(frames@)
                        == spec@.pushed(old(buf)@, chunk@).0
                    &&& final(buf)@ == spec@.pushed(old(buf)@, chunk@).1
                    &&& final(self)@ == (PortView {
                        capture: old(self)@.capture.with_raw(chunk@),
                        ..old(self)@
                    })
                },
                _ => r == ReaderStep::Exit && final(buf)@ == old(buf)@ && final(self)@
                    == old(self)@,
            },
            final(self)@.wf(),
    {
        let mut frames: Vec<Vec<u8>> = Vec::new();
        let ghost none = framing::frames_of(frames@);
        assert(none =~= seq![]);
        match event {
            ReadEvent::Quiet => {
                spec.on_idle(buf, &mut frames);
                assert(none + spec@.idled(old(buf)@).0 =~= spec@.idled(old(buf)@).0);
                ReaderStep::Frames(frames)
            },
            ReadEvent::Data(chunk) => {
                self.capture.append_raw(chunk.as_slice());
                spec.push(buf, chunk.as_slice(), &mut frames);
                assert(none + spec@.pushed(old(buf)@, chunk@).0 =~= spec@.pushed(
                    old(buf)@,
                    chunk@,
                ).0);
                ReaderStep::Frames(frames)
            },
            _ => ReaderStep::Exit,
        }
    }
}

/// The longest wait for readable bytes, in the milliseconds that the system
/// call takes.
pub fn poll_millis(timeout: Duration) -> (r: i32)
    ensures
        r == if outside::whole_millis(timeout) > i32::MAX {
            i32::MAX as int
        } else {
            outside::whole_millis(timeout) as int
        },
        forall|millis: u64|
            timeout == #[trigger] outside::millis_duration(millis) ==> r == if millis > i32::MAX {
                i32::MAX as int
            } else {
                millis as int
            },
{
    let millis = timeout.as_millis();
    if millis > 0x7fff_ffff {
        0x7fff_ffff
    } else {
        millis as i32
    }
}

/// The message about a transport that could not be opened.
pub fn transport_error(port: &str, cause: &str) -> (r: String)
    ensures
        r@ == "port "@ + port@ + ": open transport: "@ + cause@,
{
    let mut e = "port ".to_owned();
    e.append(port);
    e.append(": open transport: ");
    e.append(cause);
    e
}

/// What stands where a link is to be made.
#[derive(Debug, Clone, Copy, PartialEq, Eq, Structural)]
pub enum LinkSite {
    Free,
    Symlink,
    Other,
}

/// How to make the link.
#[derive(Debug, Clone, Copy, PartialEq, Eq, Structural)]
pub enum LinkStep {
    Create,
    /// Remove the old link first.
    Replace,
    Refuse,
}

/// A leftover link is replaced; anything else that stands in the way is never
/// touched.
pub fn link_step(site: LinkSite) -> (r: LinkStep)
    ensures
        r == (match site {
            LinkSite::Free => LinkStep::Create,
            LinkSite::Symlink => LinkStep::Replace,
            LinkSite::Other => LinkStep::Refuse,
        }),
{
    match site {
        LinkSite::Free => LinkStep::Create,
        LinkSite::Symlink => LinkStep::Replace,
        LinkSite::Other => LinkStep::Refuse,
    }
}

// ---------------------------------------------------------------------------
// Laws
// ---------------------------------------------------------------------------

/// A reload keeps the name of the port, its device, its link and everything
/// that was captured, and leaves it well-formed.
pub proof fn law_reload_keeps_device_and_capture(port: PortView, cfg: &PortConfig)
    requires
        port.wf(),
        port.swapped(cfg) is Ok,
    ensures
        ({
            let after = port.swapped(cfg)->Ok_0;
            &&& after.name == port.name
            &&& after.device_path == port.device_path
            &&& after.symlink == port.symlink
            &&& after.capture == port.capture
            &&& after.wf()
        }),
{
    lemma_compiled_wf(cfg.scenarios@, declared_order(cfg.scenarios@));
}

/// A reload keeps the active scenario where the new configuration has it, and
/// falls back to the initial scenario where it does not.
pub proof fn law_reload_keeps_active_scenario(port: PortView, cfg: &PortConfig)
    requires
        port.swapped(cfg) is Ok,
    ensures
        port.swapped(cfg)->Ok_0.active == if config::has_scenario(
            cfg.scenarios@,
            cfg.scenarios@.len() as int,
            port.active,
        ) {
            port.active
        } else {
            cfg.initial_scenario@
        },
{
    lemma_declared_is_compiled(cfg.scenarios@, port.active);
}

/// The scenarios that can be looked up are those that are declared.
pub proof fn lemma_declared_is_compiled(scenarios: Seq<ScenarioConfig>, name: Seq<char>)
    requires
        compiled_scenarios(scenarios) is Ok,
    ensures
        table::lookup(compiled_scenarios(scenarios)->Ok_0, name) is Some <==> config::has_scenario(
            scenarios,
            scenarios.len() as int,
            name,
        ),
    decreases scenarios.len(),
{
    if scenarios.len() > 0 {
        let front = scenarios.drop_last();
        let last = scenarios.last();
        lemma_declared_is_compiled(front, name);
        table::law_insert_then_lookup(
            compiled_scenarios(front)->Ok_0,
            last.name@,
            compiled_scenario(last)->Ok_0,
            name,
        );
        if config::has_scenario(front, front.len() as int, name) {
            let i = choose|i: int| 0 <= i < front.len() && (#[trigger] front[i]).name@ == name;
            assert(scenarios[i].name@ == name);
        }
        if config::has_scenario(scenarios, scenarios.len() as int, name) && name != last.name@ {
            let i = choose|i: int|
                0 <= i < scenarios.len() && (#[trigger] scenarios[i]).name@ == name;
            assert(front[i].name@ == name);
        }
        if name == last.name@ {
            assert(scenarios[scenarios.len() - 1].name@ == name);
        }
    }
}

/// A trigger sends exactly the bytes that are configured under its name, when
/// no other trigger of the scenario has the name, and nothing else is a trigger.
pub proof fn law_triggers_are_verbatim(triggers: Seq<TriggerConfig>, name: Seq<char>)
    requires
        forall|i: int, j: int|
            0 <= i < j < triggers.len() ==> (#[trigger] triggers[i]).name@ != (
            #[trigger] triggers[j]).name@,
    ensures
        forall|i: int|
            0 <= i < triggers.len() && (#[trigger] triggers[i]).name@ == name ==> table::lookup(
                compiled_triggers(triggers),
                name,
            ) == Some(triggers[i].response@),
        !config::has_trigger(triggers, triggers.len() as int, name) ==> table::lookup(
            compiled_triggers(triggers),
            name,
        ) is None,
    decreases triggers.len(),
{
    if triggers.len() > 0 {
        let front = triggers.drop_last();
        let last = triggers.last();
        assert forall|i: int, j: int| 0 <= i < j < front.len() implies (
        #[trigger] front[i]).name@ != (#[trigger] front[j]).name@ by {
            assert(triggers[i].name@ != triggers[j].name@);
        }
        law_triggers_are_verbatim(front, name);
        table::law_insert_then_lookup(
            compiled_triggers(front),
            last.name@,
            last.response@,
            name,
        );
        assert forall|i: int|
            0 <= i < triggers.len() && (
            #[trigger] triggers[i]).name@ == name implies table::lookup(
            compiled_triggers(triggers),
            name,
        ) == Some(triggers[i].response@) by {
            if i < front.len() {
                assert(front[i] == triggers[i]);
                assert(triggers[i].name@ != triggers[triggers.len() - 1].name@);
            }
        }
        if !config::has_trigger(triggers, triggers.len() as int, name) {
            if config::has_trigger(front, front.len() as int, name) {
                let i = choose|i: int| 0 <= i < front.len() && (#[trigger] front[i]).name@ == name;
                assert(triggers[i].name@ == name);
            }
            assert(triggers[triggers.len() - 1].name@ != name);
        }
    }
}

/// Switching the scenario changes which one is active and nothing else; a
/// scenario that is declared can always be switched to.
pub proof fn law_switch_changes_only_the_scenario(port: PortView, name: Seq<char>)
    requires
        port.wf(),
        table::lookup(port.compiled.scenarios, name) is Some,
    ensures
        port.switched(name) == Ok::<PortView, Seq<char>>(PortView { active: name, ..port }),
        port.switched(name)->Ok_0.wf(),
        port.switched(name)->Ok_0.switched(port.active) == Ok::<PortView, Seq<char>>(port),
{
}

proof fn lemma_rules_compile(rules: Seq<InputRuleConfig>, from: int)
    requires
        0 <= from <= rules.len(),
        forall|i: int| 0 <= i < rules.len() ==> config::rule_problem(#[trigger] rules[i]) is None,
    ensures
        matching::compiled_rules(rules, from) is Ok,
    decreases rules.len() - from,
{
    if from < rules.len() {
        lemma_rules_compile(rules, from + 1);
        assert(config::rule_problem(rules[from]) is None);
    }
}

proof fn lemma_scenarios_compile(scenarios: Seq<ScenarioConfig>)
    requires
        forall|i: int|
            0 <= i < scenarios.len() ==> config::valid_scenario(#[trigger] scenarios[i]),
    ensures
        compiled_scenarios(scenarios) is Ok,
    decreases scenarios.len(),
{
    if scenarios.len() > 0 {
        let front = scenarios.drop_last();
        assert forall|i: int| 0 <= i < front.len() implies config::valid_scenario(
            #[trigger] front[i],
        ) by {
            assert(front[i] == scenarios[i]);
        }
        lemma_scenarios_compile(front);
        assert(config::valid_scenario(scenarios[scenarios.len() - 1]));
        lemma_rules_compile(scenarios.last().input_rules@, 0);
    }
}

/// A port that passed validation starts, and a running port can be reloaded
/// with it.
pub proof fn law_valid_port_starts_and_reloads(cfg: &PortConfig, port: PortView)
    requires
        config::valid_port(*cfg),
    ensures
        spawned(cfg) is Ok,
        spawned(cfg)->Ok_0.wf(),
        port.swapped(cfg) is Ok,
{
    lemma_scenarios_compile(cfg.scenarios@);
    lemma_declared_is_compiled(cfg.scenarios@, cfg.initial_scenario@);
    lemma_compiled_wf(cfg.scenarios@, declared_order(cfg.scenarios@));
}

/// The first rule that matches a frame answers it, whatever later rules match:
/// the answer is its response, and the label is the name of the scenario and
/// its number.
pub proof fn law_first_matching_rule_answers(scenario: ScenarioView, line: Seq<u8>, k: int)
    requires
        0 <= k < scenario.rules.len(),
        scenario.rules[k].matcher.accepts(line),
        forall|j: int| 0 <= j < k ==> !(#[trigger] scenario.rules[j]).matcher.accepts(line),
    ensures
        answered(scenario, line) == (
            Some(scenario.name + ":"@ + text::decimal(k as nat)),
            Some(scenario.rules[k].response),
        ),
{
    lemma_answered(scenario, line, k);
}

/// A rule after one that matches never answers, whether it matches or not.
pub proof fn law_later_rules_never_answer(scenario: ScenarioView, line: Seq<u8>, j: int, i: int)
    requires
        0 <= j < i,
        j < scenario.rules.len(),
        scenario.rules[j].matcher.accepts(line),
    ensures
        !answers(scenario.rules, line, i),
        answered(scenario, line).0 is Some,
        answered(scenario, line).0 != Some(scenario.name + ":"@ + text::decimal(i as nat)),
{
    let k = lemma_some_first(scenario.rules, line, j);
    law_first_matching_rule_answers(scenario, line, k);
    lemma_labels_differ(scenario.name, i as nat, k as nat);
}

proof fn lemma_labels_differ(name: Seq<char>, i: nat, k: nat)
    requires
        i != k,
    ensures
        name + ":"@ + text::decimal(i) != name + ":"@ + text::decimal(k),
{
    let start = name + ":"@;
    let n = start.len() as int;
    assert((start + text::decimal(i)).skip(n) =~= text::decimal(i));
    assert((start + text::decimal(k)).skip(n) =~= text::decimal(k));
    text::law_decimal_is_read_back(i);
    text::law_decimal_is_read_back(k);
}

/// A frame that no rule matches is not answered, and has no label; a frame that
/// some rule matches is answered.
pub proof fn law_only_matched_frames_are_answered(scenario: ScenarioView, line: Seq<u8>)
    ensures
        (exists|j: int|
            0 <= j < scenario.rules.len() && (#[trigger] scenario.rules[j]).matcher.accepts(line))
            <==> answered(scenario, line).0 is Some,
        answered(scenario, line).0 is Some <==> answered(scenario, line).1 is Some,
{
    if exists|j: int|
        0 <= j < scenario.rules.len() && (#[trigger] scenario.rules[j]).matcher.accepts(line) {
        let j = choose|j: int|
            0 <= j < scenario.rules.len() && (#[trigger] scenario.rules[j]).matcher.accepts(line);
        let k = lemma_some_first(scenario.rules, line, j);
        law_first_matching_rule_answers(scenario, line, k);
    }
}

/// Where some rule matches there is a first one.
proof fn lemma_some_first(rules: Seq<matching::RuleView>, line: Seq<u8>, j: int) -> (k: int)
    requires
        0 <= j < rules.len(),
        rules[j].matcher.accepts(line),
    ensures
        0 <= k <= j,
        rules[k].matcher.accepts(line),
        forall|i: int| 0 <= i < k ==> !(#[trigger] rules[i]).matcher.accepts(line),
    decreases j,
{
    if exists|i: int| 0 <= i < j && (#[trigger] rules[i]).matcher.accepts(line) {
        let i = choose|i: int| 0 <= i < j && (#[trigger] rules[i]).matcher.accepts(line);
        lemma_some_first(rules, line, i)
    } else {
        j
    }
}

/// A compiled port lists the scenarios in the order in which they are declared.
/// Under the name of each stands that scenario, or the last one of the name: a trigger of it sends the bytes
/// that are declared for it, and the rule at each place answers the frames that
/// the declared one at that place is for, with the bytes declared there.
pub proof fn law_scenarios_are_as_declared(cfg: &PortConfig, k: int)
    requires
        compiled_port(cfg) is Ok,
        0 <= k < cfg.scenarios@.len(),
        forall|j: int|
            k < j < cfg.scenarios@.len() ==> (#[trigger] cfg.scenarios@[j]).name@
                != cfg.scenarios@[k].name@,
    ensures
        compiled_port(cfg)->Ok_0.order.len() == cfg.scenarios@.len(),
        forall|i: int|
            0 <= i < cfg.scenarios@.len() ==> #[trigger] compiled_port(cfg)->Ok_0.order[i]
                == cfg.scenarios@[i].name@,
        ({
            let declared = cfg.scenarios@[k];
            let found = table::lookup(compiled_port(cfg)->Ok_0.scenarios, declared.name@);
            &&& found is Some
            &&& holds_declared(found->0, declared)
        }),
{
    lemma_found_is_declared(cfg.scenarios@, k);
    let declared = cfg.scenarios@[k];
    let view = compiled_scenario(declared)->Ok_0;
    lemma_holds_declared(declared);
}

/// Whether a scenario has the name, the triggers and the rules of a declared one.
pub open spec fn holds_declared(scenario: ScenarioView, declared: ScenarioConfig) -> bool {
    let rules = declared.input_rules@;
    let triggers = declared.triggers@;
    &&& scenario.name == declared.name@
    &&& scenario.rules.len() == rules.len()
    &&& forall|i: int, line: Seq<u8>|
        0 <= i < rules.len() ==> (#[trigger] scenario.rules[i].matcher.accepts(line)
            <==> matching::is_for(rules[i], line))
    &&& forall|i: int|
        0 <= i < rules.len() ==> (#[trigger] scenario.rules[i]).response == rules[i].response@
    &&& forall|i: int|
        0 <= i < triggers.len() && (forall|j: int|
            i < j < triggers.len() ==> (#[trigger] triggers[j]).name@ != triggers[i].name@)
            ==> triggered(scenario, (#[trigger] triggers[i]).name@) == Ok::<Seq<u8>, Seq<char>>(
            triggers[i].response@,
        )
    &&& forall|name: Seq<char>|
        (forall|j: int| 0 <= j < triggers.len() ==> (#[trigger] triggers[j]).name@ != name)
            ==> #[trigger] triggered(scenario, name) == Err::<Seq<u8>, Seq<char>>(
            "unknown trigger: "@ + name,
        )
}

proof fn lemma_found_is_declared(scenarios: Seq<ScenarioConfig>, k: int)
    requires
        compiled_scenarios(scenarios) is Ok,
        0 <= k < scenarios.len(),
        forall|j: int|
            k < j < scenarios.len() ==> (#[trigger] scenarios[j]).name@
                != scenarios[k].name@,
    ensures
        compiled_scenario(scenarios[k]) is Ok,
        table::lookup(compiled_scenarios(scenarios)->Ok_0, scenarios[k].name@) == Some(
            compiled_scenario(scenarios[k])->Ok_0,
        ),
    decreases scenarios.len(),
{
    let front = scenarios.drop_last();
    let last = scenarios.last();
    table::law_insert_then_lookup(
        compiled_scenarios(front)->Ok_0,
        last.name@,
        compiled_scenario(last)->Ok_0,
        scenarios[k].name@,
    );
    if k < front.len() {
        assert forall|j: int| k < j < front.len() implies (#[trigger] front[j]).name@
            != front[k].name@ by {
            assert(scenarios[j].name@ != scenarios[k].name@);
        }
        lemma_found_is_declared(front, k);
        assert(scenarios[scenarios.len() - 1].name@ != scenarios[k].name@);
    }
}

proof fn lemma_later_trigger_counts(triggers: Seq<TriggerConfig>, i: int)
    requires
        0 <= i < triggers.len(),
        forall|j: int|
            i < j < triggers.len() ==> (#[trigger] triggers[j]).name@ != triggers[i].name@,
    ensures
        table::lookup(compiled_triggers(triggers), triggers[i].name@) == Some(
            triggers[i].response@,
        ),
    decreases triggers.len(),
{
    let front = triggers.drop_last();
    let last = triggers.last();
    table::law_insert_then_lookup(
        compiled_triggers(front),
        last.name@,
        last.response@,
        triggers[i].name@,
    );
    if i < front.len() {
        assert forall|j: int| i < j < front.len() implies (#[trigger] front[j]).name@
            != front[i].name@ by {
            assert(triggers[j].name@ != triggers[i].name@);
        }
        lemma_later_trigger_counts(front, i);
        assert(triggers[triggers.len() - 1].name@ != triggers[i].name@);
    }
}

proof fn lemma_no_such_trigger(triggers: Seq<TriggerConfig>, name: Seq<char>)
    requires
        forall|j: int| 0 <= j < triggers.len() ==> (#[trigger] triggers[j]).name@ != name,
    ensures
        table::lookup(compiled_triggers(triggers), name) is None,
    decreases triggers.len(),
{
    if triggers.len() > 0 {
        let front = triggers.drop_last();
        let last = triggers.last();
        assert forall|j: int| 0 <= j < front.len() implies (#[trigger] front[j]).name@ != name by {
            assert(triggers[j].name@ != name);
        }
        lemma_no_such_trigger(front, name);
        assert(triggers[triggers.len() - 1].name@ != name);
        table::law_insert_then_lookup(compiled_triggers(front), last.name@, last.response@, name);
    }
}

proof fn lemma_holds_declared(declared: ScenarioConfig)
    requires
        compiled_scenario(declared) is Ok,
    ensures
        holds_declared(compiled_scenario(declared)->Ok_0, declared),
{
    let scenario = compiled_scenario(declared)->Ok_0;
    let rules = declared.input_rules@;
    let triggers = declared.triggers@;
    matching::law_rules_keep_their_places(rules, seq![]);
    assert forall|i: int, line: Seq<u8>| 0 <= i < rules.len() implies (
    #[trigger] scenario.rules[i].matcher.accepts(line) <==> matching::is_for(rules[i], line)) by {
        matching::law_rules_keep_their_places(rules, line);
        assert(scenario.rules[i] == matching::compiled_rules(rules, 0)->Ok_0[i]);
    }
    assert forall|i: int|
        0 <= i < triggers.len() && (forall|j: int|
            i < j < triggers.len() ==> (#[trigger] triggers[j]).name@
                != triggers[i].name@) implies triggered(
        scenario,
        (#[trigger] triggers[i]).name@,
    ) == Ok::<Seq<u8>, Seq<char>>(triggers[i].response@) by {
        lemma_later_trigger_counts(triggers, i);
    }
    assert forall|name: Seq<char>|
        (forall|j: int|
            0 <= j < triggers.len() ==> (#[trigger] triggers[j]).name@
                != name) implies #[trigger] triggered(scenario, name) == Err::<
        Seq<u8>,
        Seq<char>,
    >("unknown trigger: "@ + name) by {
        lemma_no_such_trigger(triggers, name);
    }
}

/// Whenever a port starts, it has the name that its configuration gives it, the
/// initial scenario is active, whatever the order of declaration, with the
/// triggers and rules that are declared under that name, the framing is the one
/// that is asked for, or newline-delimited where none is, nothing is captured
/// yet, and there is no device.
pub proof fn law_port_starts_with_the_initial_scenario(cfg: &PortConfig)
    requires
        spawned(cfg) is Ok,
    ensures
        ({
            let port = spawned(cfg)->Ok_0;
            let scenarios = cfg.scenarios@;
            &&& port.name == cfg.name@
            &&& port.active == cfg.initial_scenario@
            &&& exists|k: int|
                0 <= k < scenarios.len() && (#[trigger] scenarios[k]).name@ == cfg.initial_scenario@
            &&& forall|k: int|
                0 <= k < scenarios.len() && (#[trigger] scenarios[k]).name@ == cfg.initial_scenario@
                    && (forall|j: int|
                    k < j < scenarios.len() ==> (#[trigger] scenarios[j]).name@
                        != scenarios[k].name@) ==> holds_declared(port.scenario(), scenarios[k])
            &&& cfg.framing matches Some(asked) ==> port.framing == framing::configured_framing(
                Some(&asked),
            )
            &&& cfg.framing is None ==> port.framing == (framing::FramingView {
                strategy: framing::StrategyView::Delimiter { delim: seq![10u8], keep: true },
                max_buffer: 4096,
                quiet_ms: None,
            })
            &&& port.device_path is None
            &&& port.symlink is None
            &&& port.capture.raw.len() == 0
            &&& port.capture.events.len() == 0
            &&& port.capture.max_raw == cfg.capture.max_raw_bytes
            &&& port.capture.max_events == cfg.capture.max_events
        }),
{
    let port = spawned(cfg)->Ok_0;
    let scenarios = cfg.scenarios@;
    lemma_declared_is_compiled(scenarios, cfg.initial_scenario@);
    assert forall|k: int|
        0 <= k < scenarios.len() && (#[trigger] scenarios[k]).name@ == cfg.initial_scenario@ && (
        forall|j: int|
            k < j < scenarios.len() ==> (#[trigger] scenarios[j]).name@
                != scenarios[k].name@) implies holds_declared(port.scenario(), scenarios[k]) by {
        law_scenarios_are_as_declared(cfg, k);
    }
}

/// A port that was reloaded works as one that is newly started from the same
/// configuration: it has the framing that the configuration asks for, or
/// newline-delimited framing where it asks for none, and the scenarios that the
/// configuration declares. Whichever scenario is active has the triggers and
/// rules that are declared under its name.
pub proof fn law_reload_takes_the_whole_configuration(port: PortView, cfg: &PortConfig)
    requires
        port.swapped(cfg) is Ok,
    ensures
        ({
            let after = port.swapped(cfg)->Ok_0;
            let scenarios = cfg.scenarios@;
            &&& cfg.framing matches Some(asked) ==> after.framing == framing::configured_framing(
                Some(&asked),
            )
            &&& cfg.framing is None ==> after.framing == (framing::FramingView {
                strategy: framing::StrategyView::Delimiter { delim: seq![10u8], keep: true },
                max_buffer: 4096,
                quiet_ms: None,
            })
            &&& spawned(cfg) matches Ok(fresh) ==> after.framing == fresh.framing && after.compiled
                == fresh.compiled
            &&& after.compiled.order.len() == scenarios.len()
            &&& forall|i: int|
                0 <= i < scenarios.len() ==> #[trigger] after.compiled.order[i]
                    == scenarios[i].name@
            &&& forall|k: int|
                0 <= k < scenarios.len() && (forall|j: int|
                    k < j < scenarios.len() ==> (#[trigger] scenarios[j]).name@
                        != scenarios[k].name@) ==> (table::lookup(
                    after.compiled.scenarios,
                    (#[trigger] scenarios[k]).name@,
                ) matches Some(found) && holds_declared(found, scenarios[k]))
            &&& exists|k: int|
                0 <= k < scenarios.len() && (#[trigger] scenarios[k]).name@ == after.active
            &&& (exists|k: int|
                0 <= k < scenarios.len() && (#[trigger] scenarios[k]).name@ == port.active)
                ==> after.active == port.active
            &&& !(exists|k: int|
                0 <= k < scenarios.len() && (#[trigger] scenarios[k]).name@ == port.active)
                ==> after.active == cfg.initial_scenario@
        }),
{
    let after = port.swapped(cfg)->Ok_0;
    let scenarios = cfg.scenarios@;
    lemma_declared_is_compiled(scenarios, cfg.initial_scenario@);
    lemma_declared_is_compiled(scenarios, port.active);
    assert forall|k: int|
        0 <= k < scenarios.len() && (forall|j: int|
            k < j < scenarios.len() ==> (#[trigger] scenarios[j]).name@
                != scenarios[k].name@) implies (table::lookup(
        after.compiled.scenarios,
        (#[trigger] scenarios[k]).name@,
    ) matches Some(found) && holds_declared(found, scenarios[k])) by {
        law_scenarios_are_as_declared(cfg, k);
    }
}

/// A switch to a scenario that is not there is refused with its name, and after a
/// switch to one that is there the triggers and rules are those of that one.
pub proof fn law_switch_goes_where_it_is_told(port: PortView, name: Seq<char>)
    requires
        port.wf(),
    ensures
        (exists|i: int|
            0 <= i < port.compiled.scenarios.len() && (#[trigger] port.compiled.scenarios[i]).0
                == name) <==> port.switched(name) is Ok,
        port.switched(name) matches Err(e) ==> e == "unknown scenario: "@ + name,
        forall|i: int|
            0 <= i < port.compiled.scenarios.len() && (#[trigger] port.compiled.scenarios[i]).0
                == name ==> port.switched(name)->Ok_0.active == name && port.switched(
                name,
            )->Ok_0.scenario() == port.compiled.scenarios[i].1,
{
    table::lemma_place(port.compiled.scenarios, name);
    let pairs = port.compiled.scenarios;
    let p = table::place(pairs, name) as int;
    assert forall|i: int| 0 <= i < pairs.len() && (#[trigger] pairs[i]).0 == name implies p
        == i by {
        if p < i {
            assert(pairs[p].0 != pairs[i].0);
        }
        if i < p {
            assert(pairs[i].0 != name);
        }
    }
}

/// Two paths that differ only in repeated slashes, a slash at the end, or `.` between
/// slashes are the same; paths are compared part by part otherwise, so that a
/// path followed by another part is never the path itself, and a path from the root
/// is never one that is not. A `.` at the very start counts.
pub proof fn law_paths_are_compared_by_their_parts(a: Seq<char>, b: Seq<char>, part: Seq<char>)
    requires
        part.len() > 0,
        part != "."@,
        forall|i: int| 0 <= i < part.len() ==> #[trigger] part[i] != '/',
    ensures
        same_path(a, a),
        same_path(a, b) <==> same_path(b, a),
        a.len() > 0 ==> same_path(a, a + seq!['/']),
        a.len() > 0 ==> same_path(a, a + seq!['/', '.']),
        a.len() > 0 ==> same_path(a + seq!['/'] + part, a + seq!['/', '/'] + part),
        a.len() > 0 ==> same_path(a + seq!['/'] + part, a + seq!['/', '.', '/'] + part),
        a.len() > 0 ==> !same_path(a, a + seq!['/'] + part),
        is_absolute(a) != is_absolute(b) ==> !same_path(a, b),
        a.len() > 0 && b.len() > 0 ==> (same_path(a + seq!['/'] + part, b + seq!['/'] + part)
            <==> same_path(a, b)),
        !same_path(seq!['.', '/'] + part, part),
{
    let slash = seq!['/'];
    let none = Seq::<char>::empty();
    let dot = seq!['.'];
    reveal_strlit(".");
    assert("."@ =~= dot);
    assert(part.len() == 1 ==> part =~= seq![part[0]]);
    lemma_part_added(a, part);
    lemma_part_added(a, none);
    lemma_part_added(a, dot);
    lemma_part_added(b, part);
    assert(a + slash + none =~= a + slash);
    assert(a + slash + dot =~= a + seq!['/', '.']);
    lemma_part_added(a + slash, part);
    assert(a + slash + slash + part =~= a + seq!['/', '/'] + part);
    lemma_part_added(a + seq!['/', '.'], part);
    assert(a + seq!['/', '.'] + slash + part =~= a + seq!['/', '.', '/'] + part);
    text::lemma_split_step(dot, '/', seq![]);
    text::lemma_split_step(part, '/', seq![]);
    lemma_part_added(dot, part);
    assert(dot + slash + part =~= seq!['.', '/'] + part);
    assert(seq![part].drop_last() =~= seq![]);
    assert(counting_parts(seq![part].drop_last()).len() == 0);
    assert(counting_parts(seq![part]).len() == 1);
    assert(seq![dot].drop_last() =~= seq![]);
    assert(counting_parts(seq![dot]).len() == 1);
    let pa = counting_parts(text::split(a, '/'));
    let pb = counting_parts(text::split(b, '/'));
    assert(pa.push(part).len() == pa.len() + 1);
    if pa.push(part) == pb.push(part) {
        assert(pa.push(part).drop_last() =~= pa);
        assert(pb.push(part).drop_last() =~= pb);
    }
}

/// One more part after a slash.
proof fn lemma_part_added(a: Seq<char>, part: Seq<char>)
    requires
        forall|i: int| 0 <= i < part.len() ==> #[trigger] part[i] != '/',
    ensures
        counting_parts(text::split(a + seq!['/'] + part, '/')) == (if part.len() == 0 || part
            == "."@ {
            counting_parts(text::split(a, '/'))
        } else {
            counting_parts(text::split(a, '/')).push(part)
        }),
        a.len() > 0 ==> is_absolute(a + seq!['/'] + part) == is_absolute(a),
{
    text::lemma_split_last(a, '/', part);
    text::law_split_is_joined_back(a, '/');
    let parts = text::split(a, '/');
    let more = parts.push(part);
    assert(more.drop_last() =~= parts);
    assert(more.last() == part);
}

/// The triggers of a scenario are listed in the order in which they are declared.
pub proof fn law_triggers_are_listed_as_declared(triggers: Seq<TriggerConfig>)
    requires
        forall|i: int, j: int|
            0 <= i < j < triggers.len() ==> (#[trigger] triggers[i]).name@ != (
            #[trigger] triggers[j]).name@,
    ensures
        table::names(compiled_triggers(triggers)).len() == triggers.len(),
        forall|i: int|
            0 <= i < triggers.len() ==> #[trigger] table::names(compiled_triggers(triggers))[i]
                == triggers[i].name@,
        table::distinct(compiled_triggers(triggers)),
    decreases triggers.len(),
{
    if triggers.len() > 0 {
        let front = triggers.drop_last();
        let last = triggers.last();
        assert forall|i: int, j: int| 0 <= i < j < front.len() implies (
        #[trigger] front[i]).name@ != (#[trigger] front[j]).name@ by {
            assert(triggers[i].name@ != triggers[j].name@);
        }
        law_triggers_are_listed_as_declared(front);
        let pairs = compiled_triggers(front);
        let names = table::names(pairs);
        assert(!names.contains(last.name@)) by {
            if names.contains(last.name@) {
                let i = choose|i: int| 0 <= i < names.len() && names[i] == last.name@;
                assert(front[i].name@ == last.name@);
                assert(triggers[i].name@ != triggers[triggers.len() - 1].name@);
            }
        }
        table::law_names_keep_their_order(pairs, last.name@, last.response@);
        table::law_insert_then_lookup(pairs, last.name@, last.response@, last.name@);
        assert forall|i: int| 0 <= i < triggers.len() implies #[trigger] table::names(
            compiled_triggers(triggers),
        )[i] == triggers[i].name@ by {
            if i < front.len() {
                assert(names[i] == front[i].name@);
            }
        }
    }
}

/// Why a port cannot start, or cannot take a configuration: a scenario has a rule
/// that does not compile, told by the scenario and the number of the rule, or there
/// is no scenario to be active in.
pub proof fn law_refused_configurations_say_why(cfg: &PortConfig, port: PortView, k: int, n: int)
    requires
        0 <= k < cfg.scenarios@.len(),
        forall|i: int|
            0 <= i < k ==> matching::compiled_rules((#[trigger] cfg.scenarios@[i]).input_rules@, 0)
                is Ok,
        0 <= n < cfg.scenarios@[k].input_rules@.len(),
        forall|i: int|
            0 <= i < n ==> matching::compiled_matcher(
                #[trigger] cfg.scenarios@[k].input_rules@[i],
            ) is Ok,
        matching::compiled_matcher(cfg.scenarios@[k].input_rules@[n]) is Err,
    ensures
        ({
            let scenario = cfg.scenarios@[k];
            let cause = matching::compiled_matcher(scenario.input_rules@[n])->Err_0;
            let told = "scenario "@ + scenario.name@ + ": "@ + ("rule "@ + text::decimal(n as nat)
                + ": "@ + cause);
            &&& spawned(cfg) == Err::<PortView, Seq<char>>(told)
            &&& port.swapped(cfg) == Err::<PortView, Seq<char>>(told)
        }),
{
    let scenarios = cfg.scenarios@;
    matching::lemma_first_rule_error(scenarios[k].input_rules@, 0, n);
    lemma_front_compiles(scenarios, k);
    assert(scenarios.take(k + 1).drop_last() =~= scenarios.take(k));
    assert(scenarios.take(k + 1).last() == scenarios[k]);
    lemma_first_error(scenarios, k + 1);
}

proof fn lemma_front_compiles(scenarios: Seq<ScenarioConfig>, k: int)
    requires
        0 <= k <= scenarios.len(),
        forall|i: int|
            0 <= i < k ==> matching::compiled_rules((#[trigger] scenarios[i]).input_rules@, 0)
                is Ok,
    ensures
        compiled_scenarios(scenarios.take(k)) is Ok,
    decreases k,
{
    if k > 0 {
        lemma_front_compiles(scenarios, k - 1);
        assert(scenarios.take(k).drop_last() =~= scenarios.take(k - 1));
        assert(scenarios.take(k).last() == scenarios[k - 1]);
    }
}

/// A port whose scenarios all compile is refused exactly when its initial scenario is
/// not declared, and a running port takes it unless neither that one nor the
/// scenario that is active is declared.
pub proof fn law_a_scenario_must_be_left(cfg: &PortConfig, port: PortView)
    requires
        compiled_port(cfg) is Ok,
    ensures
        ({
            let scenarios = cfg.scenarios@;
            let initial = exists|i: int|
                0 <= i < scenarios.len() && (#[trigger] scenarios[i]).name@ == cfg.initial_scenario@;
            let active = exists|i: int|
                0 <= i < scenarios.len() && (#[trigger] scenarios[i]).name@ == port.active;
            &&& initial <==> spawned(cfg) is Ok
            &&& !initial ==> spawned(cfg) == Err::<PortView, Seq<char>>(
                "port "@ + cfg.name@ + ": initial scenario missing"@,
            )
            &&& initial || active <==> port.swapped(cfg) is Ok
            &&& !initial && !active ==> port.swapped(cfg) == Err::<PortView, Seq<char>>(
                "port "@ + cfg.name@ + ": no usable scenario after reload"@,
            )
        }),
{
    lemma_declared_is_compiled(cfg.scenarios@, cfg.initial_scenario@);
    lemma_declared_is_compiled(cfg.scenarios@, port.active);
}

/// A scenario that is as declared answers a frame with the response of the first
/// declared rule that is for it, under the name of the scenario and the number of
/// the rule, and leaves a frame unanswered that no declared rule is for.
pub proof fn law_frames_are_answered_as_declared(
    scenario: ScenarioView,
    declared: ScenarioConfig,
    line: Seq<u8>,
    n: int,
)
    requires
        holds_declared(scenario, declared),
        0 <= n <= declared.input_rules@.len(),
        forall|i: int|
            0 <= i < n ==> !matching::is_for(#[trigger] declared.input_rules@[i], line),
        n < declared.input_rules@.len() ==> matching::is_for(declared.input_rules@[n], line),
    ensures
        answered(scenario, line) == if n < declared.input_rules@.len() {
            (
                Some(declared.name@ + ":"@ + text::decimal(n as nat)),
                Some(declared.input_rules@[n].response@),
            )
        } else {
            (None, None)
        },
{
    assert forall|i: int| 0 <= i < n implies !(
    #[trigger] scenario.rules[i]).matcher.accepts(line) by {
        assert(!matching::is_for(declared.input_rules@[i], line));
    }
    if n < declared.input_rules@.len() {
        assert(scenario.rules[n].matcher.accepts(line));
        law_first_matching_rule_answers(scenario, line, n);
    } else {
        law_only_matched_frames_are_answered(scenario, line);
    }
}

/// A frame is recorded with the rule that answered it, whether or not the answer
/// could be written. Processing it goes well where the answer was written or there
/// was nothing to write, and otherwise tells the rule and the cause.
pub proof fn law_frames_are_recorded_with_their_rule(
    scenario: ScenarioView,
    line: Seq<u8>,
    failure: Option<Seq<char>>,
)
    ensures
        ({
            let outcome = answered(scenario, line);
            &&& recorded(processed(outcome, failure)) == outcome.0
            &&& failure is None || outcome.1 is None ==> (processed(
                outcome,
                failure,
            ) matches Ok(done) && done == outcome)
            &&& failure is Some && outcome.1 is Some ==> (processed(
                outcome,
                failure,
            ) matches Err(e) && e.0 == outcome.0->0 && e.1 == failure->0)
        }),
{
    law_only_matched_frames_are_answered(scenario, line);
}

} // verus!
