//! The configuration: its shape, its defaults and its validation.
use crate::bytes::Bytes;
use crate::framing::FramingConfig;
use crate::outside;
use crate::text;
use crate::transport::TransportConfig;
use vstd::prelude::*;

verus! {

/// A whole configuration.
#[derive(Debug, Clone)]
pub struct Config {
    pub http: HttpConfig,
    pub logging: LoggingConfig,
    pub ports: Vec<PortConfig>,
}

/// How to log.
#[derive(Debug, Clone)]
pub struct LoggingConfig {
    /// A level, or levels per module: `info`, `debug`, `some_module=debug,warn`.
    pub level: String,
    pub format: LogFormat,
}

impl Default for LoggingConfig {
    fn default() -> (r: LoggingConfig)
        ensures
            r.level@ == "info"@,
            r.format == LogFormat::Text,
    {
        LoggingConfig { level: default_log_level(), format: LogFormat::default() }
    }
}

/// The shape of a log record.
#[derive(Debug, Clone, Copy, PartialEq, Eq, Structural)]
pub enum LogFormat {
    Text,
    Json,
}

impl Default for LogFormat {
    fn default() -> (r: LogFormat)
        ensures
            r == LogFormat::Text,
    {
        LogFormat::Text
    }
}

/// The log level of a configuration that names none.
pub fn default_log_level() -> (r: String)
    ensures
        r@ == "info"@,
{
    "info".to_owned()
}

/// Where the HTTP interface listens.
#[derive(Debug, Clone)]
pub struct HttpConfig {
    pub bind: String,
}

impl Default for HttpConfig {
    fn default() -> (r: HttpConfig)
        ensures
            r.bind@ == "127.0.0.1:5000"@,
    {
        HttpConfig { bind: default_bind() }
    }
}

/// The address of a configuration that names none.
pub fn default_bind() -> (r: String)
    ensures
        r@ == "127.0.0.1:5000"@,
{
    "127.0.0.1:5000".to_owned()
}

/// One port.
#[derive(Debug, Clone)]
pub struct PortConfig {
    pub name: String,
    pub initial_scenario: String,
    /// A stable link to the device path, made when the port starts.
    pub symlink: Option<String>,
    pub transport: TransportConfig,
    /// Newline-delimited when absent.
    pub framing: Option<FramingConfig>,
    pub capture: CaptureConfig,
    pub scenarios: Vec<ScenarioConfig>,
}

/// The bounds of the capture buffers.
#[derive(Debug, Clone, Copy)]
pub struct CaptureConfig {
    pub max_events: usize,
    pub max_raw_bytes: usize,
}

impl Default for CaptureConfig {
    fn default() -> (r: CaptureConfig)
        ensures
            r.max_events == 1000,
            r.max_raw_bytes == 65536,
    {
        CaptureConfig { max_events: default_max_events(), max_raw_bytes: default_max_raw_bytes() }
    }
}

/// The bound of the event log of a configuration that names none.
pub fn default_max_events() -> (r: usize)
    ensures
        r == 1000,
{
    1000
}

/// The bound of the raw ring of a configuration that names none.
pub fn default_max_raw_bytes() -> (r: usize)
    ensures
        r == 65536,
{
    65536
}

/// One behaviour of a port.
#[derive(Debug, Clone)]
pub struct ScenarioConfig {
    pub name: String,
    pub triggers: Vec<TriggerConfig>,
    pub input_rules: Vec<InputRuleConfig>,
}

/// Bytes that can be sent on demand, by name.
#[derive(Debug, Clone)]
pub struct TriggerConfig {
    pub name: String,
    pub response: Bytes,
}

/// Bytes that answer a matching frame.
#[derive(Debug, Clone)]
pub struct InputRuleConfig {
    pub match_: MatchConfig,
    pub response: Bytes,
}

/// Which frames a rule answers. Exactly one of the fields is to be set.
#[derive(Debug, Clone)]
pub struct MatchConfig {
    pub exact: Option<Bytes>,
    pub regex: Option<String>,
    pub mask: Option<MaskConfig>,
}

/// A byte pattern of which only the bits that are set in `mask` count.
#[derive(Debug, Clone)]
pub struct MaskConfig {
    pub pattern: Bytes,
    pub mask: Bytes,
}

/// A `MatchConfig` of which exactly one field is set.
#[derive(Debug, Clone)]
pub enum Match {
    Exact(Vec<u8>),
    Regex(String),
    Mask { pattern: Vec<u8>, mask: Vec<u8> },
}

/// What a `Match` holds.
pub enum MatchView {
    Exact(Seq<u8>),
    Regex(Seq<char>),
    Mask { pattern: Seq<u8>, mask: Seq<u8> },
}

impl View for Match {
    type V = MatchView;

    open spec fn view(&self) -> MatchView {
        match self {
            Match::Exact(bytes) => MatchView::Exact(bytes@),
            Match::Regex(pattern) => MatchView::Regex(pattern@),
            Match::Mask { pattern, mask } => MatchView::Mask { pattern: pattern@, mask: mask@ },
        }
    }
}

impl MatchConfig {
    /// The one kind of match that is set, or the error message.
    pub open spec fn resolved(&self) -> Result<MatchView, Seq<char>> {
        match (self.exact, self.regex, self.mask) {
            (Some(e), None, None) => Ok(MatchView::Exact(e@)),
            (None, Some(r), None) => Ok(MatchView::Regex(r@)),
            (None, None, Some(m)) => if m.pattern@.len() == m.mask@.len() {
                Ok(MatchView::Mask { pattern: m.pattern@, mask: m.mask@ })
            } else {
                Err("match: `pattern` and `mask` must have the same length"@)
            },
            (None, None, None) => Err("match: must set either `exact`, `regex` or `mask`"@),
            _ => Err("match: set only one of `exact`, `regex` or `mask`"@),
        }
    }

    /// Picks the one kind of match that is set.
    pub fn resolve(&self) -> (r: Result<Match, String>)
        ensures
            match r {
                Ok(m) => self.resolved() == Ok::<MatchView, Seq<char>>(m@),
                Err(e) => self.resolved() == Err::<MatchView, Seq<char>>(e@),
            },
    {
        match (&self.exact, &self.regex, &self.mask) {
            (Some(e), None, None) => Ok(Match::Exact(e.0.clone())),
            (None, Some(r), None) => Ok(Match::Regex(r.clone())),
            (None, None, Some(m)) => {
                if m.pattern.0.len() == m.mask.0.len() {
                    Ok(Match::Mask { pattern: m.pattern.0.clone(), mask: m.mask.0.clone() })
                } else {
                    Err("match: `pattern` and `mask` must have the same length".to_owned())
                }
            },
            (None, None, None) => Err(
                "match: must set either `exact`, `regex` or `mask`".to_owned(),
            ),
            _ => Err("match: set only one of `exact`, `regex` or `mask`".to_owned()),
        }
    }
}

// ---------------------------------------------------------------------------
// Validation
// ---------------------------------------------------------------------------

/// The message about a pattern that is refused as a regular expression.
pub open spec fn regex_problem(pattern: Seq<char>, error: Option<Seq<char>>) -> Option<Seq<char>> {
    match error {
        Some(e) => Some("invalid regex "@ + outside::quoted_text(pattern) + ": "@ + e),
        None => None,
    }
}

/// What is wrong with one rule.
pub open spec fn rule_problem(rule: InputRuleConfig) -> Option<Seq<char>> {
    match rule.match_.resolved() {
        Err(e) => Some(e),
        Ok(MatchView::Regex(pattern)) => regex_problem(
            pattern,
            outside::regex_error(pattern),
        ),
        Ok(_) => None,
    }
}

/// What is wrong with the rules from `from` on: the first problem, after the
/// number of the rule.
pub open spec fn rules_problem(rules: Seq<InputRuleConfig>, from: int) -> Option<Seq<char>>
    decreases rules.len() - from,
{
    if from < 0 || from >= rules.len() {
        None
    } else {
        match rule_problem(rules[from]) {
            Some(e) => Some(" rule "@ + text::decimal(from as nat) + ": "@ + e),
            None => rules_problem(rules, from + 1),
        }
    }
}

/// Whether one of the first `count` triggers has the name.
pub open spec fn has_trigger(triggers: Seq<TriggerConfig>, count: int, name: Seq<char>) -> bool {
    exists|i: int| 0 <= i < count && (#[trigger] triggers[i]).name@ == name
}

/// The first trigger from `from` on that has the name of an earlier one.
pub open spec fn triggers_problem(triggers: Seq<TriggerConfig>, from: int) -> Option<Seq<char>>
    decreases triggers.len() - from,
{
    if from < 0 || from >= triggers.len() {
        None
    } else if has_trigger(triggers, from, triggers[from].name@) {
        Some(": duplicate trigger: "@ + triggers[from].name@)
    } else {
        triggers_problem(triggers, from + 1)
    }
}

/// Whether one of the first `count` scenarios has the name.
pub open spec fn has_scenario(scenarios: Seq<ScenarioConfig>, count: int, name: Seq<char>) -> bool {
    exists|i: int| 0 <= i < count && (#[trigger] scenarios[i]).name@ == name
}

/// What is wrong with the contents of a scenario.
pub open spec fn scenario_problem(scenario: ScenarioConfig) -> Option<Seq<char>> {
    match triggers_problem(scenario.triggers@, 0) {
        Some(e) => Some(e),
        None => rules_problem(scenario.input_rules@, 0),
    }
}

/// What is wrong with the scenarios from `from` on: the first problem, to be
/// read after the name of the port.
pub open spec fn scenarios_problem(scenarios: Seq<ScenarioConfig>, from: int) -> Option<Seq<char>>
    decreases scenarios.len() - from,
{
    if from < 0 || from >= scenarios.len() {
        None
    } else if has_scenario(scenarios, from, scenarios[from].name@) {
        Some(": duplicate scenario name: "@ + scenarios[from].name@)
    } else {
        match scenario_problem(scenarios[from]) {
            Some(e) => Some(" scenario "@ + scenarios[from].name@ + e),
            None => scenarios_problem(scenarios, from + 1),
        }
    }
}

/// What is wrong with the framing of a port.
pub open spec fn framing_problem(port: PortConfig) -> Option<Seq<char>> {
    match port.framing {
        Some(framing) => framing.problem(),
        None => None,
    }
}

/// What is wrong with the contents of a port, to be read after its name.
pub open spec fn port_problem(port: PortConfig) -> Option<Seq<char>> {
    if port.scenarios@.len() == 0 {
        Some(": must declare at least one scenario"@)
    } else if let Some(e) = framing_problem(port) {
        Some(": "@ + e)
    } else if let Some(e) = scenarios_problem(port.scenarios@, 0) {
        Some(e)
    } else if !has_scenario(
        port.scenarios@,
        port.scenarios@.len() as int,
        port.initial_scenario@,
    ) {
        Some(
            ": initial_scenario "@ + outside::quoted_text(port.initial_scenario@)
                + " not in scenarios"@,
        )
    } else {
        None
    }
}

/// Whether one of the first `count` ports has the name.
pub open spec fn has_port(ports: Seq<PortConfig>, count: int, name: Seq<char>) -> bool {
    exists|i: int| 0 <= i < count && (#[trigger] ports[i]).name@ == name
}

/// The first problem of the ports from `from` on.
pub open spec fn ports_problem(ports: Seq<PortConfig>, from: int) -> Option<Seq<char>>
    decreases ports.len() - from,
{
    if from < 0 || from >= ports.len() {
        None
    } else if has_port(ports, from, ports[from].name@) {
        Some("duplicate port name: "@ + ports[from].name@)
    } else {
        match port_problem(ports[from]) {
            Some(e) => Some("port "@ + ports[from].name@ + e),
            None => ports_problem(ports, from + 1),
        }
    }
}

/// The first problem of a configuration.
pub open spec fn config_problem(cfg: &Config) -> Option<Seq<char>> {
    ports_problem(cfg.ports@, 0)
}

/// The message about a pattern, given what came of compiling it.
pub fn regex_verdict(pattern: &str, compiled: Result<regex::bytes::Regex, String>) -> (r: Option<
    String,
>)
    ensures
        text::text_option(r) == regex_problem(
            pattern@,
            match compiled {
                Ok(_) => None,
                Err(e) => Some(e@),
            },
        ),
{
    match compiled {
        Ok(_) => None,
        Err(cause) => {
            let mut e = "invalid regex ".to_owned();
            e.append(outside::quote_text(pattern).as_str());
            e.append(": ");
            e.append(cause.as_str());
            Some(e)
        },
    }
}

fn check_rule(rule: &InputRuleConfig) -> (r: Option<String>)
    ensures
        text::text_option(r) == rule_problem(*rule),
{
    match rule.match_.resolve() {
        Err(e) => Some(e),
        Ok(Match::Regex(pattern)) => regex_verdict(
            pattern.as_str(),
            outside::compile_regex(pattern.as_str()),
        ),
        Ok(_) => None,
    }
}

fn check_rules(rules: &Vec<InputRuleConfig>) -> (r: Option<String>)
    ensures
        text::text_option(r) == rules_problem(rules@, 0),
{
    let mut i: usize = 0;
    while i < rules.len()
        invariant
            i <= rules.len(),
            rules_problem(rules@, 0) == rules_problem(rules@, i as int),
        decreases rules.len() - i,
    {
        if let Some(cause) = check_rule(&rules[i]) {
            let mut e = " rule ".to_owned();
            e.append(text::decimal_text(i as u64).as_str());
            e.append(": ");
            e.append(cause.as_str());
            return Some(e);
        }
        i = i + 1;
    }
    None
}

fn check_triggers(triggers: &Vec<TriggerConfig>) -> (r: Option<String>)
    ensures
        text::text_option(r) == triggers_problem(triggers@, 0),
{
    let mut i: usize = 0;
    while i < triggers.len()
        invariant
            i <= triggers.len(),
            triggers_problem(triggers@, 0) == triggers_problem(triggers@, i as int),
        decreases triggers.len() - i,
    {
        let mut j: usize = 0;
        while j < i
            invariant
                j <= i < triggers.len(),
                triggers_problem(triggers@, 0) == triggers_problem(triggers@, i as int),
                forall|k: int|
                    0 <= k < j ==> (#[trigger] triggers@[k]).name@ != triggers@[i as int].name@,
            decreases i - j,
        {
            if triggers[j].name == triggers[i].name {
                let mut e = ": duplicate trigger: ".to_owned();
                e.append(triggers[i].name.as_str());
                assert(has_trigger(triggers@, i as int, triggers@[i as int].name@));
                return Some(e);
            }
            j = j + 1;
        }
        assert(!has_trigger(triggers@, i as int, triggers@[i as int].name@));
        i = i + 1;
    }
    None
}

/// Whether one of the first `count` scenarios has the name.
fn scenario_known(scenarios: &Vec<ScenarioConfig>, count: usize, name: &String) -> (r: bool)
    requires
        count <= scenarios@.len(),
    ensures
        r == has_scenario(scenarios@, count as int, name@),
{
    let mut j: usize = 0;
    while j < count
        invariant
            j <= count <= scenarios.len(),
            forall|k: int| 0 <= k < j ==> (#[trigger] scenarios@[k]).name@ != name@,
        decreases count - j,
    {
        if scenarios[j].name == *name {
            return true;
        }
        j = j + 1;
    }
    false
}

fn check_scenarios(scenarios: &Vec<ScenarioConfig>) -> (r: Option<String>)
    ensures
        text::text_option(r) == scenarios_problem(scenarios@, 0),
{
    let mut i: usize = 0;
    while i < scenarios.len()
        invariant
            i <= scenarios.len(),
            scenarios_problem(scenarios@, 0) == scenarios_problem(scenarios@, i as int),
        decreases scenarios.len() - i,
    {
        let scenario = &scenarios[i];
        if scenario_known(scenarios, i, &scenario.name) {
            let mut e = ": duplicate scenario name: ".to_owned();
            e.append(scenario.name.as_str());
            return Some(e);
        }
        let found = match check_triggers(&scenario.triggers) {
            Some(e) => Some(e),
            None => check_rules(&scenario.input_rules),
        };
        if let Some(cause) = found {
            let mut e = " scenario ".to_owned();
            e.append(scenario.name.as_str());
            e.append(cause.as_str());
            return Some(e);
        }
        i = i + 1;
    }
    None
}

fn check_port(port: &PortConfig) -> (r: Option<String>)
    ensures
        text::text_option(r) == port_problem(*port),
{
    if port.scenarios.len() == 0 {
        return Some(": must declare at least one scenario".to_owned());
    }
    if let Some(framing) = &port.framing {
        if let Err(cause) = framing.validate() {
            let mut e = ": ".to_owned();
            e.append(cause.as_str());
            return Some(e);
        }
    }
    if let Some(e) = check_scenarios(&port.scenarios) {
        return Some(e);
    }
    if !scenario_known(&port.scenarios, port.scenarios.len(), &port.initial_scenario) {
        let mut e = ": initial_scenario ".to_owned();
        e.append(outside::quote_text(port.initial_scenario.as_str()).as_str());
        e.append(" not in scenarios");
        return Some(e);
    }
    None
}

/// Whether one of the first `count` ports has the name.
pub fn port_known(ports: &Vec<PortConfig>, count: usize, name: &String) -> (r: bool)
    requires
        count <= ports@.len(),
    ensures
        r == has_port(ports@, count as int, name@),
{
    let mut j: usize = 0;
    while j < count
        invariant
            j <= count <= ports.len(),
            forall|k: int| 0 <= k < j ==> (#[trigger] ports@[k]).name@ != name@,
        decreases count - j,
    {
        if ports[j].name == *name {
            return true;
        }
        j = j + 1;
    }
    false
}

/// Checks a configuration and reports the first problem, for a reader.
pub fn validate(cfg: &Config) -> (r: Result<(), String>)
    ensures
        match r {
            Ok(()) => config_problem(cfg) is None,
            Err(e) => config_problem(cfg) == Some(e@),
        },
{
    let ports = &cfg.ports;
    let mut i: usize = 0;
    while i < ports.len()
        invariant
            i <= ports.len(),
            ports@ == cfg.ports@,
            config_problem(cfg) == ports_problem(ports@, i as int),
        decreases ports.len() - i,
    {
        let port = &ports[i];
        if port_known(ports, i, &port.name) {
            let mut e = "duplicate port name: ".to_owned();
            e.append(port.name.as_str());
            return Err(e);
        }
        if let Some(cause) = check_port(port) {
            let mut e = "port ".to_owned();
            e.append(port.name.as_str());
            e.append(cause.as_str());
            return Err(e);
        }
        i = i + 1;
    }
    Ok(())
}

// ---------------------------------------------------------------------------
// Laws
// ---------------------------------------------------------------------------

/// A scenario without fault: its triggers have different names, and each rule
/// sets one well-formed match, with a pattern that compiles where it is one.
pub open spec fn valid_scenario(scenario: ScenarioConfig) -> bool {
    let triggers = scenario.triggers@;
    let rules = scenario.input_rules@;
    &&& forall|i: int, j: int|
        0 <= i < j < triggers.len() ==> (#[trigger] triggers[i]).name@ != (
        #[trigger] triggers[j]).name@
    &&& forall|i: int| 0 <= i < rules.len() ==> rule_problem(#[trigger] rules[i]) is None
}

/// A port without fault.
pub open spec fn valid_port(port: PortConfig) -> bool {
    let scenarios = port.scenarios@;
    &&& port.framing matches Some(framing) ==> framing.problem() is None
    &&& forall|i: int, j: int|
        0 <= i < j < scenarios.len() ==> (#[trigger] scenarios[i]).name@ != (
        #[trigger] scenarios[j]).name@
    &&& forall|i: int| 0 <= i < scenarios.len() ==> valid_scenario(#[trigger] scenarios[i])
    &&& has_scenario(scenarios, scenarios.len() as int, port.initial_scenario@)
}

/// A configuration without fault.
pub open spec fn valid_config(cfg: &Config) -> bool {
    let ports = cfg.ports@;
    &&& forall|i: int, j: int|
        0 <= i < j < ports.len() ==> (#[trigger] ports[i]).name@ != (#[trigger] ports[j]).name@
    &&& forall|i: int| 0 <= i < ports.len() ==> valid_port(#[trigger] ports[i])
}

proof fn lemma_rules(rules: Seq<InputRuleConfig>, from: int)
    requires
        0 <= from <= rules.len(),
    ensures
        rules_problem(rules, from) is None <==> forall|i: int|
            from <= i < rules.len() ==> rule_problem(#[trigger] rules[i]) is None,
    decreases rules.len() - from,
{
    if from < rules.len() {
        lemma_rules(rules, from + 1);
    }
}

proof fn lemma_triggers(triggers: Seq<TriggerConfig>, from: int)
    requires
        0 <= from <= triggers.len(),
    ensures
        triggers_problem(triggers, from) is None <==> forall|i: int, j: int|
            0 <= i < j < triggers.len() && from <= j ==> (#[trigger] triggers[i]).name@ != (
            #[trigger] triggers[j]).name@,
    decreases triggers.len() - from,
{
    if from < triggers.len() {
        lemma_triggers(triggers, from + 1);
        if has_trigger(triggers, from, triggers[from].name@) {
            let i = choose|i: int|
                0 <= i < from && (#[trigger] triggers[i]).name@ == triggers[from].name@;
            assert(triggers[i].name@ == triggers[from].name@);
        }
    }
}

proof fn lemma_scenarios(scenarios: Seq<ScenarioConfig>, from: int)
    requires
        0 <= from <= scenarios.len(),
    ensures
        scenarios_problem(scenarios, from) is None <==> {
            &&& forall|i: int, j: int|
                0 <= i < j < scenarios.len() && from <= j ==> (#[trigger] scenarios[i]).name@ != (
                #[trigger] scenarios[j]).name@
            &&& forall|i: int|
                from <= i < scenarios.len() ==> valid_scenario(#[trigger] scenarios[i])
        },
    decreases scenarios.len() - from,
{
    if from < scenarios.len() {
        lemma_scenarios(scenarios, from + 1);
        lemma_triggers(scenarios[from].triggers@, 0);
        lemma_rules(scenarios[from].input_rules@, 0);
        if has_scenario(scenarios, from, scenarios[from].name@) {
            let i = choose|i: int|
                0 <= i < from && (#[trigger] scenarios[i]).name@ == scenarios[from].name@;
            assert(scenarios[i].name@ == scenarios[from].name@);
        }
    }
}

proof fn lemma_port(port: PortConfig)
    ensures
        port_problem(port) is None <==> valid_port(port),
{
    lemma_scenarios(port.scenarios@, 0);
}

proof fn lemma_ports(ports: Seq<PortConfig>, from: int)
    requires
        0 <= from <= ports.len(),
    ensures
        ports_problem(ports, from) is None <==> {
            &&& forall|i: int, j: int|
                0 <= i < j < ports.len() && from <= j ==> (#[trigger] ports[i]).name@ != (
                #[trigger] ports[j]).name@
            &&& forall|i: int| from <= i < ports.len() ==> valid_port(#[trigger] ports[i])
        },
    decreases ports.len() - from,
{
    if from < ports.len() {
        lemma_ports(ports, from + 1);
        lemma_port(ports[from]);
        if has_port(ports, from, ports[from].name@) {
            let i = choose|i: int| 0 <= i < from && (#[trigger] ports[i]).name@ == ports[from].name@;
            assert(ports[i].name@ == ports[from].name@);
        }
    }
}

/// Validation accepts exactly the configurations without fault: no name is
/// declared twice, every initial scenario is declared, and every match, mask,
/// pattern and framing is well-formed.
pub proof fn law_validation_is_exact(cfg: &Config)
    ensures
        config_problem(cfg) is None <==> valid_config(cfg),
{
    lemma_ports(cfg.ports@, 0);
}

/// The message about a configuration is about the first port that has a fault:
/// it names that port, and it does not depend on the ports after it.
pub proof fn law_first_faulty_port_is_reported(cfg: &Config, other: &Config, k: int)
    requires
        0 <= k < cfg.ports@.len(),
        k < other.ports@.len(),
        forall|i: int| 0 <= i <= k ==> #[trigger] cfg.ports@[i] == other.ports@[i],
        forall|i: int|
            0 <= i < k ==> valid_port(#[trigger] cfg.ports@[i]) && cfg.ports@[i].name@
                != cfg.ports@[k].name@,
        forall|i: int, j: int|
            0 <= i < j < k ==> (#[trigger] cfg.ports@[i]).name@ != (#[trigger] cfg.ports@[j]).name@,
        !valid_port(cfg.ports@[k]),
    ensures
        config_problem(cfg) == config_problem(other),
        config_problem(cfg) matches Some(e) && ("port "@ + cfg.ports@[k].name@).is_prefix_of(e),
{
    lemma_skips_sound_ports(cfg.ports@, 0, k);
    assert forall|i: int| 0 <= i < k implies valid_port(#[trigger] other.ports@[i])
        && other.ports@[i].name@ != other.ports@[k].name@ by {
        assert(cfg.ports@[i] == other.ports@[i]);
        assert(cfg.ports@[k] == other.ports@[k]);
    }
    assert forall|i: int, j: int| 0 <= i < j < k implies (#[trigger] other.ports@[i]).name@ != (
    #[trigger] other.ports@[j]).name@ by {
        assert(cfg.ports@[i] == other.ports@[i]);
        assert(cfg.ports@[j] == other.ports@[j]);
    }
    lemma_skips_sound_ports(other.ports@, 0, k);
    lemma_port(cfg.ports@[k]);
    let e = port_problem(cfg.ports@[k])->0;
    let start = "port "@ + cfg.ports@[k].name@;
    assert((start + e).take(start.len() as int) =~= start);
    assert(!has_port(cfg.ports@, k, cfg.ports@[k].name@));
    assert(!has_port(other.ports@, k, other.ports@[k].name@));
    assert(cfg.ports@[k] == other.ports@[k]);
}

proof fn lemma_skips_sound_ports(ports: Seq<PortConfig>, from: int, k: int)
    requires
        0 <= from <= k < ports.len(),
        forall|i: int| 0 <= i < k ==> valid_port(#[trigger] ports[i]),
        forall|i: int, j: int|
            0 <= i < j < k ==> (#[trigger] ports[i]).name@ != (#[trigger] ports[j]).name@,
    ensures
        ports_problem(ports, from) == ports_problem(ports, k),
    decreases k - from,
{
    if from < k {
        lemma_skips_sound_ports(ports, from + 1, k);
        lemma_port(ports[from]);
        if has_port(ports, from, ports[from].name@) {
            let i = choose|i: int| 0 <= i < from && (#[trigger] ports[i]).name@ == ports[from].name@;
            assert(ports[i].name@ == ports[from].name@);
        }
    }
}

/// What validation says of the first port with a fault, by the fault: a name that an
/// earlier port has, no scenarios, a framing that makes no sense, a faulty
/// scenario, or an initial scenario that is not declared. They are looked for in
/// this order, and a fault of a scenario is told after the name of the port.
pub proof fn law_port_faults_are_told_in_order(cfg: &Config, k: int)
    requires
        0 <= k < cfg.ports@.len(),
        forall|i: int| 0 <= i < k ==> valid_port(#[trigger] cfg.ports@[i]),
        forall|i: int, j: int|
            0 <= i < j < k ==> (#[trigger] cfg.ports@[i]).name@ != (#[trigger] cfg.ports@[j]).name@,
    ensures
        ({
            let port = cfg.ports@[k];
            let scenarios = port.scenarios@;
            let told = config_problem(cfg);
            let known = exists|i: int| 0 <= i < k && (#[trigger] cfg.ports@[i]).name@ == port.name@;
            &&& known ==> told == Some("duplicate port name: "@ + port.name@)
            &&& !known && scenarios.len() == 0 ==> told == Some(
                "port "@ + port.name@ + ": must declare at least one scenario"@,
            )
            &&& !known && scenarios.len() > 0 && (port.framing matches Some(f) && f.problem()
                is Some) ==> told == Some(
                "port "@ + port.name@ + (": "@ + port.framing->0.problem()->0),
            )
            &&& !known && scenarios.len() > 0 && (port.framing matches Some(f) ==> f.problem()
                is None) && scenarios_problem(scenarios, 0) is Some ==> told == Some(
                "port "@ + port.name@ + scenarios_problem(scenarios, 0)->0,
            )
            &&& !known && (port.framing matches Some(f) ==> f.problem() is None)
                && scenarios.len() > 0 && scenarios_problem(scenarios, 0) is None && (forall|i: int|
                0 <= i < scenarios.len() ==> (#[trigger] scenarios[i]).name@
                    != port.initial_scenario@) ==> told == Some(
                "port "@ + port.name@ + (": initial_scenario "@ + outside::quoted_text(
                    port.initial_scenario@,
                ) + " not in scenarios"@),
            )
        }),
{
    lemma_skips_sound_ports(cfg.ports@, 0, k);
    let port = cfg.ports@[k];
    assert(has_port(cfg.ports@, k, port.name@) <==> exists|i: int|
        0 <= i < k && (#[trigger] cfg.ports@[i]).name@ == port.name@);
}

/// What validation says of the first scenario of a port with a fault: that an earlier
/// one has its name, else the first trigger of it that has the name of an earlier
/// one, else the first faulty rule, by its number.
pub proof fn law_scenario_faults_are_told_in_order(scenarios: Seq<ScenarioConfig>, k: int, n: int)
    requires
        0 <= k < scenarios.len(),
        forall|i: int| 0 <= i < k ==> valid_scenario(#[trigger] scenarios[i]),
        forall|i: int, j: int|
            0 <= i < j < k ==> (#[trigger] scenarios[i]).name@ != (#[trigger] scenarios[j]).name@,
    ensures
        ({
            let scenario = scenarios[k];
            let triggers = scenario.triggers@;
            let rules = scenario.input_rules@;
            let told = scenarios_problem(scenarios, 0);
            let known = exists|i: int| 0 <= i < k && (#[trigger] scenarios[i]).name@ == scenario.name@;
            let distinct_to = |m: int|
                forall|i: int, j: int|
                    0 <= i < j < m ==> (#[trigger] triggers[i]).name@ != (
                    #[trigger] triggers[j]).name@;
            &&& known ==> told == Some(": duplicate scenario name: "@ + scenario.name@)
            &&& !known && 0 <= n < triggers.len() && distinct_to(n) && has_trigger(
                triggers,
                n,
                triggers[n].name@,
            ) ==> told == Some(
                " scenario "@ + scenario.name@ + (": duplicate trigger: "@ + triggers[n].name@),
            )
            &&& !known && distinct_to(triggers.len() as int) && 0 <= n < rules.len() && (forall|
                i: int,
            |
                0 <= i < n ==> rule_problem(#[trigger] rules[i]) is None) && rule_problem(
                rules[n],
            ) is Some ==> told == Some(
                " scenario "@ + scenario.name@ + (" rule "@ + text::decimal(n as nat) + ": "@
                    + rule_problem(rules[n])->0),
            )
        }),
{
    lemma_skips_sound_scenarios(scenarios, 0, k);
    let scenario = scenarios[k];
    let triggers = scenario.triggers@;
    let rules = scenario.input_rules@;
    assert(has_scenario(scenarios, k, scenario.name@) <==> exists|i: int|
        0 <= i < k && (#[trigger] scenarios[i]).name@ == scenario.name@);
    if 0 <= n < triggers.len() && (forall|i: int, j: int|
        0 <= i < j < n ==> (#[trigger] triggers[i]).name@ != (#[trigger] triggers[j]).name@) {
        lemma_skips_sound_triggers(triggers, 0, n);
    }
    lemma_triggers(triggers, 0);
    if 0 <= n < rules.len() && (forall|i: int|
        0 <= i < n ==> rule_problem(#[trigger] rules[i]) is None) {
        lemma_skips_sound_rules(rules, 0, n);
    }
}

proof fn lemma_skips_sound_scenarios(scenarios: Seq<ScenarioConfig>, from: int, k: int)
    requires
        0 <= from <= k < scenarios.len(),
        forall|i: int| 0 <= i < k ==> valid_scenario(#[trigger] scenarios[i]),
        forall|i: int, j: int|
            0 <= i < j < k ==> (#[trigger] scenarios[i]).name@ != (#[trigger] scenarios[j]).name@,
    ensures
        scenarios_problem(scenarios, from) == scenarios_problem(scenarios, k),
    decreases k - from,
{
    if from < k {
        lemma_skips_sound_scenarios(scenarios, from + 1, k);
        assert(valid_scenario(scenarios[from]));
        lemma_triggers(scenarios[from].triggers@, 0);
        lemma_rules(scenarios[from].input_rules@, 0);
        if has_scenario(scenarios, from, scenarios[from].name@) {
            let i = choose|i: int|
                0 <= i < from && (#[trigger] scenarios[i]).name@ == scenarios[from].name@;
            assert(scenarios[i].name@ == scenarios[from].name@);
        }
    }
}

proof fn lemma_skips_sound_triggers(triggers: Seq<TriggerConfig>, from: int, n: int)
    requires
        0 <= from <= n < triggers.len(),
        forall|i: int, j: int|
            0 <= i < j < n ==> (#[trigger] triggers[i]).name@ != (#[trigger] triggers[j]).name@,
    ensures
        triggers_problem(triggers, from) == triggers_problem(triggers, n),
    decreases n - from,
{
    if from < n {
        lemma_skips_sound_triggers(triggers, from + 1, n);
        if has_trigger(triggers, from, triggers[from].name@) {
            let i = choose|i: int|
                0 <= i < from && (#[trigger] triggers[i]).name@ == triggers[from].name@;
            assert(triggers[i].name@ == triggers[from].name@);
        }
    }
}

proof fn lemma_skips_sound_rules(rules: Seq<InputRuleConfig>, from: int, n: int)
    requires
        0 <= from <= n < rules.len(),
        forall|i: int| 0 <= i < n ==> rule_problem(#[trigger] rules[i]) is None,
    ensures
        rules_problem(rules, from) == rules_problem(rules, n),
    decreases n - from,
{
    if from < n {
        lemma_skips_sound_rules(rules, from + 1, n);
        assert(rule_problem(rules[from]) is None);
    }
}

/// What validation says of a rule, by its fault.
pub proof fn law_rule_faults_are_told(rule: InputRuleConfig)
    ensures
        match (rule.match_.exact, rule.match_.regex, rule.match_.mask) {
            (None, None, None) => rule_problem(rule) == Some(
                "match: must set either `exact`, `regex` or `mask`"@,
            ),
            (Some(_), None, None) => rule_problem(rule) is None,
            (None, Some(pattern), None) => match outside::regex_error(pattern@) {
                Some(e) => rule_problem(rule) == Some(
                    "invalid regex "@ + outside::quoted_text(pattern@) + ": "@ + e,
                ),
                None => rule_problem(rule) is None,
            },
            (None, None, Some(m)) => if m.pattern@.len() == m.mask@.len() {
                rule_problem(rule) is None
            } else {
                rule_problem(rule) == Some("match: `pattern` and `mask` must have the same length"@)
            },
            _ => rule_problem(rule) == Some("match: set only one of `exact`, `regex` or `mask`"@),
        },
{
}

} // verus!
