//! Classification of output lines.
//!
//! The patterns of the parsers bound to a task are tried on each line in
//! their declared order; the first one that matches decides the level of
//! the line, the field extracted from it and the action it signals.
//! A pattern matches a line when its regular expression finds a match
//! anywhere in the line; a pattern that is to cover the whole line anchors
//! itself with `^` and `$`.
//!
//! A rule holds its expression as text, and the expression is compiled
//! each time the rule is tried: what a rule does to a line is then a
//! function of two texts, which is what the contracts speak of.

use vstd::prelude::*;
use crate::config::{copy_opt_text, opt_text, texts, Parser, Pattern, PatternView, Task};
use crate::name_map::NameMap;
use crate::names::same_name;

verus! {

/// Severity attached to a classified output line.
#[derive(Clone, Copy, Debug, PartialEq, Eq, Structural)]
pub enum Level {
    Info,
    Warn,
    Error,
    Success,
}

/// A signal that a line carries for the supervisor.
#[derive(Clone, Copy, Debug, PartialEq, Eq, Structural)]
pub enum Action {
    /// The service is ready to be used.
    Ready,
    /// An action that this version does not know; it has no effect.
    Unknown,
}

/// A pattern made ready for matching.
#[derive(Debug, Clone)]
pub struct Rule {
    pub regex: String,
    pub level: Level,
    pub extract: Option<String>,
    pub action: Option<Action>,
}

/// A field taken out of a line.
#[derive(Debug, Clone)]
pub struct Extracted {
    pub field: String,
    pub value: String,
}

/// What the classifier makes of one line.
#[derive(Debug, Clone)]
pub struct Event {
    pub level: Level,
    pub extract: Option<Extracted>,
    pub action: Option<Action>,
}

/// Why a set of parsers cannot be used.
#[derive(Debug, Clone)]
pub enum ClassifierError {
    UnknownParser { parser: String },
    InvalidRegex { parser: String, pattern: usize },
    MissingCaptureGroup { parser: String, pattern: usize },
}

/// The rules that classify the output of one task, in the order in which
/// they are tried.
#[derive(Debug, Clone)]
pub struct ParserSet {
    pub rules: Vec<Rule>,
}

/// A rule as mathematical values.
pub struct RuleView {
    pub regex: Seq<char>,
    pub level: Level,
    pub extract: Option<Seq<char>>,
    pub action: Option<Action>,
}

impl View for Rule {
    type V = RuleView;

    open spec fn view(&self) -> RuleView {
        RuleView {
            regex: self.regex@,
            level: self.level,
            extract: opt_text(self.extract),
            action: self.action,
        }
    }
}

/// An event as mathematical values: the extract is the field name and
/// the captured text.
pub struct EventView {
    pub level: Level,
    pub extract: Option<(Seq<char>, Seq<char>)>,
    pub action: Option<Action>,
}

impl View for Event {
    type V = EventView;

    open spec fn view(&self) -> EventView {
        EventView {
            level: self.level,
            extract: match self.extract {
                Some(x) => Some((x.field@, x.value@)),
                None => None,
            },
            action: self.action,
        }
    }
}

impl View for ParserSet {
    type V = Seq<RuleView>;

    open spec fn view(&self) -> Seq<RuleView> {
        Seq::new(self.rules@.len(), |i: int| self.rules@[i]@)
    }
}

/// The number of capture groups of a regular expression, the implicit
/// group of the whole match included; `None` for a text that is no
/// regular expression or that compiles to more than the engine's size
/// limit allows. The limit is counted in bytes of the compiled form, so
/// an expression close to it may compile on one build target and not on
/// another; the count is that of the running build.
pub uninterp spec fn pattern_groups(pattern: Seq<char>) -> Option<nat>;

/// What the leftmost match of a regular expression in a line captures
/// in the group of the given number: `None` where the expression finds
/// no match in the line or does not compile (see `pattern_groups`);
/// otherwise the text of the group, if the expression has such a group
/// and it took part in the match.
pub uninterp spec fn group_capture(pattern: Seq<char>, line: Seq<char>, group: nat) -> Option<
    Option<Seq<char>>,
>;

/// What the leftmost match of a regular expression in a line captures
/// in its first capture group, the one from which a field is extracted.
pub open spec fn first_capture(pattern: Seq<char>, line: Seq<char>) -> Option<Option<Seq<char>>> {
    group_capture(pattern, line, 1)
}

/// The text of a capture, if any.
pub open spec fn capture_text(c: Option<Option<String>>) -> Option<Option<Seq<char>>> {
    match c {
        Some(inner) => Some(opt_text(inner)),
        None => None,
    }
}

/// Compiles `pattern` with `regex::Regex::new` and counts its groups with
/// `Regex::captures_len`. The count is that of the compiled expression;
/// a pattern that does not compile has none.
#[verifier::external_body]
fn count_groups(pattern: &str) -> (r: Option<usize>)
    ensures
        match r {
            Some(n) => pattern_groups(pattern@) == Some(n as nat),
            None => pattern_groups(pattern@) is None,
        },
{
    match regex::Regex::new(pattern) {
        Ok(re) => Some(re.captures_len()),
        Err(_) => None,
    }
}

/// Compiles `pattern` with `regex::Regex::new`, searches `line` with
/// `Regex::captures` and reads the group `group` with `Captures::get`.
/// The result is what the leftmost match captures in that group, or
/// `None` where nothing matches or the pattern does not compile.
#[verifier::external_body]
fn capture_group(pattern: &str, line: &str, group: usize) -> (r: Option<Option<String>>)
    ensures
        capture_text(r) == group_capture(pattern@, line@, group as nat),
{
    match regex::Regex::new(pattern) {
        Ok(re) => match re.captures(line) {
            Some(found) => match found.get(group) {
                Some(m) => Some(Some(m.as_str().to_owned())),
                None => Some(None),
            },
            None => None,
        },
        Err(_) => None,
    }
}

/// What the first capture group of `pattern` holds for `line`.
fn capture_first(pattern: &str, line: &str) -> (r: Option<Option<String>>)
    ensures
        capture_text(r) == first_capture(pattern@, line@),
{
    capture_group(pattern, line, 1)
}

/// The level that a level name stands for; any other text counts as `info`.
pub open spec fn level_of(name: Seq<char>) -> Level {
    if name == "warn"@ {
        Level::Warn
    } else if name == "error"@ {
        Level::Error
    } else if name == "success"@ {
        Level::Success
    } else {
        Level::Info
    }
}

/// The action that an action name stands for.
pub open spec fn action_of(name: Seq<char>) -> Action {
    if name == "ready"@ {
        Action::Ready
    } else {
        Action::Unknown
    }
}

/// The rule that a declared pattern stands for.
pub open spec fn rule_of(p: PatternView) -> RuleView {
    RuleView {
        regex: p.regex,
        level: level_of(p.level),
        extract: p.extract,
        action: match p.action {
            Some(a) => Some(action_of(a)),
            None => None,
        },
    }
}

/// What is wrong with a pattern.
#[derive(Clone, Copy, Debug, PartialEq, Eq, Structural)]
pub enum Fault {
    InvalidRegex,
    MissingCaptureGroup,
}

/// The fault of a pattern, given the group count of its expression: it
/// is no regular expression, or it names a field to extract and has no
/// capture group to take it from.
pub open spec fn fault_given(p: PatternView, groups: Option<nat>) -> Option<Fault> {
    match groups {
        None => Some(Fault::InvalidRegex),
        Some(n) => if p.extract is Some && n < 2 {
            Some(Fault::MissingCaptureGroup)
        } else {
            None
        },
    }
}

/// The fault of a declared pattern.
pub open spec fn fault_of(p: PatternView) -> Option<Fault> {
    fault_given(p, pattern_groups(p.regex))
}

/// The event of a line that the rule `rule` claims with the capture `captured`.
pub open spec fn event_of(rule: RuleView, captured: Option<Seq<char>>) -> EventView {
    EventView {
        level: rule.level,
        extract: match (rule.extract, captured) {
            (Some(field), Some(value)) => Some((field, value)),
            _ => None,
        },
        action: rule.action,
    }
}

/// The event of a line that no rule claims.
pub open spec fn passthrough() -> EventView {
    EventView { level: Level::Info, extract: None, action: None }
}

/// The event of `line` under `rules`: that of the first rule whose
/// expression matches the line, or the pass-through event.
pub open spec fn classified(rules: Seq<RuleView>, line: Seq<char>) -> EventView
    decreases rules.len(),
{
    if rules.len() == 0 {
        passthrough()
    } else {
        match first_capture(rules[0].regex, line) {
            Some(captured) => event_of(rules[0], captured),
            None => classified(rules.drop_first(), line),
        }
    }
}

/// The event of a line, given for each rule what its expression captured
/// in the line.
pub open spec fn classified_given(
    rules: Seq<RuleView>,
    captures: Seq<Option<Option<Seq<char>>>>,
) -> EventView
    decreases rules.len(),
{
    if rules.len() == 0 || captures.len() == 0 {
        passthrough()
    } else {
        match captures[0] {
            Some(captured) => event_of(rules[0], captured),
            None => classified_given(rules.drop_first(), captures.drop_first()),
        }
    }
}

/// The first rule that matches decides, whatever the rules after it say.
pub proof fn lemma_first_match_wins(rules: Seq<RuleView>, line: Seq<char>, i: int)
    requires
        0 <= i < rules.len(),
        first_capture(rules[i].regex, line) is Some,
        forall|j: int| 0 <= j < i ==> first_capture(#[trigger] rules[j].regex, line) is None,
    ensures
        classified(rules, line) == event_of(rules[i], first_capture(rules[i].regex, line)->0),
    decreases i,
{
    if i > 0 {
        let rest = rules.drop_first();
        assert(rest[i - 1] == rules[i]);
        assert forall|j: int| 0 <= j < i - 1 implies first_capture(#[trigger] rest[j].regex, line)
            is None by {
            assert(rest[j] == rules[j + 1]);
        }
        lemma_first_match_wins(rest, line, i - 1);
        assert(first_capture(rules[0].regex, line) is None);
    }
}

/// A line that no rule matches passes through at level `info`, with no
/// field and no action.
pub proof fn lemma_no_match_passes(rules: Seq<RuleView>, line: Seq<char>)
    requires
        forall|j: int| 0 <= j < rules.len() ==> first_capture(#[trigger] rules[j].regex, line) is None,
    ensures
        classified(rules, line) == passthrough(),
    decreases rules.len(),
{
    if rules.len() > 0 {
        let rest = rules.drop_first();
        assert forall|j: int| 0 <= j < rest.len() implies first_capture(#[trigger] rest[j].regex, line)
            is None by {
            assert(rest[j] == rules[j + 1]);
        }
        lemma_no_match_passes(rest, line);
        assert(first_capture(rules[0].regex, line) is None);
    }
}

/// The level that `name` stands for.
pub fn parse_level(name: &str) -> (l: Level)
    ensures
        l == level_of(name@),
{
    if same_name(name, "warn") {
        Level::Warn
    } else if same_name(name, "error") {
        Level::Error
    } else if same_name(name, "success") {
        Level::Success
    } else {
        Level::Info
    }
}

/// The action that `name` stands for.
pub fn parse_action(name: &str) -> (a: Action)
    ensures
        a == action_of(name@),
{
    if same_name(name, "ready") {
        Action::Ready
    } else {
        Action::Unknown
    }
}

/// The event of a line that `rule` claims with the capture `captured`.
pub fn event_for(rule: &Rule, captured: Option<String>) -> (e: Event)
    ensures
        e@ == event_of(rule@, opt_text(captured)),
{
    let extract = match (&rule.extract, captured) {
        (Some(field), Some(value)) => Some(Extracted { field: field.clone(), value }),
        _ => None,
    };
    Event { level: rule.level, extract, action: rule.action }
}

/// The event of a line that no rule claims.
pub fn passthrough_event() -> (e: Event)
    ensures
        e@ == passthrough(),
{
    Event { level: Level::Info, extract: None, action: None }
}

/// Makes a rule of a declared pattern whose expression has `groups`
/// groups, or names the fault of the pattern.
pub fn rule_from(p: &Pattern, groups: Option<usize>) -> (r: Result<Rule, Fault>)
    ensures
        match r {
            Ok(rule) => fault_given(p@, groups_view(groups)) is None && rule@ == rule_of(p@),
            Err(f) => fault_given(p@, groups_view(groups)) == Some(f),
        },
{
    match groups {
        None => Err(Fault::InvalidRegex),
        Some(n) => {
            if p.extract.is_some() && n < 2 {
                Err(Fault::MissingCaptureGroup)
            } else {
                let action = match &p.action {
                    Some(a) => Some(parse_action(a.as_str())),
                    None => None,
                };
                let extract = match &p.extract {
                    Some(f) => Some(f.clone()),
                    None => None,
                };
                Ok(
                    Rule {
                        regex: p.regex.clone(),
                        level: parse_level(p.level.as_str()),
                        extract,
                        action,
                    },
                )
            }
        },
    }
}

/// A group count as a mathematical value.
pub open spec fn groups_view(groups: Option<usize>) -> Option<nat> {
    match groups {
        Some(n) => Some(n as nat),
        None => None,
    }
}

/// Checks a declared pattern and makes a rule of it.
pub fn compile_pattern(p: &Pattern) -> (r: Result<Rule, Fault>)
    ensures
        match r {
            Ok(rule) => fault_of(p@) is None && rule@ == rule_of(p@),
            Err(f) => fault_of(p@) == Some(f),
        },
{
    let groups = count_groups(p.regex.as_str());
    rule_from(p, groups)
}

/// The captures of the rules in a line, as mathematical values.
pub open spec fn capture_texts(c: Seq<Option<Option<String>>>) -> Seq<Option<Option<Seq<char>>>> {
    Seq::new(c.len(), |i: int| capture_text(c[i]))
}

impl ParserSet {
    /// The event of a line, given for each rule what its expression
    /// captured in the line: the first rule with a capture decides.
    pub fn classify_given(&self, captures: &Vec<Option<Option<String>>>) -> (e: Event)
        ensures
            e@ == classified_given(self@, capture_texts(captures@)),
    {
        let n = self.rules.len();
        let m = captures.len();
        let ghost all = capture_texts(captures@);
        proof {
            assert(self@.subrange(0, n as int) =~= self@);
            assert(all.subrange(0, m as int) =~= all);
        }
        let mut i: usize = 0;
        while i < n && i < m
            invariant
                n == self.rules@.len(),
                m == captures@.len(),
                all == capture_texts(captures@),
                i <= n,
                i <= m,
                classified_given(self@, all) == classified_given(
                    self@.subrange(i as int, n as int),
                    all.subrange(i as int, m as int),
                ),
            decreases n - i,
        {
            let ghost rest_rules = self@.subrange(i as int, n as int);
            let ghost rest_caps = all.subrange(i as int, m as int);
            proof {
                assert(rest_rules.drop_first() =~= self@.subrange(i + 1, n as int));
                assert(rest_caps.drop_first() =~= all.subrange(i + 1, m as int));
                assert(rest_rules[0] == self.rules@[i as int]@);
                assert(rest_caps[0] == all[i as int]);
            }
            match &captures[i] {
                Some(captured) => {
                    return event_for(&self.rules[i], copy_opt_text(captured));
                },
                None => {},
            }
            i = i + 1;
        }
        passthrough_event()
    }

    /// Classifies one line of output.
    pub fn classify(&self, line: &str) -> (e: Event)
        ensures
            e@ == classified(self@, line@),
    {
        let n = self.rules.len();
        proof {
            assert(self@.subrange(0, n as int) =~= self@);
        }
        let mut i: usize = 0;
        while i < n
            invariant
                n == self.rules@.len(),
                i <= n,
                classified(self@, line@) == classified(self@.subrange(i as int, n as int), line@),
            decreases n - i,
        {
            let ghost rest = self@.subrange(i as int, n as int);
            proof {
                assert(rest.drop_first() =~= self@.subrange(i + 1, n as int));
                assert(rest[0] == self.rules@[i as int]@);
            }
            match capture_first(self.rules[i].regex.as_str(), line) {
                Some(captured) => {
                    return event_for(&self.rules[i], captured);
                },
                None => {},
            }
            i = i + 1;
        }
        passthrough_event()
    }
}

/// The rules in a vector, as mathematical values.
pub open spec fn rule_views(r: Seq<Rule>) -> Seq<RuleView> {
    Seq::new(r.len(), |i: int| r[i]@)
}

/// The rules that the patterns of a parser stand for, in order.
pub open spec fn rules_of(ps: Seq<PatternView>) -> Seq<RuleView> {
    Seq::new(ps.len(), |j: int| rule_of(ps[j]))
}

/// No pattern of the parser has a fault.
pub open spec fn parser_sound(ps: Seq<PatternView>) -> bool {
    forall|j: int| 0 <= j < ps.len() ==> fault_of(#[trigger] ps[j]) is None
}

/// The first faulty pattern of the parser stands at `j`.
pub open spec fn first_fault_at(ps: Seq<PatternView>, j: int) -> bool {
    &&& 0 <= j < ps.len()
    &&& fault_of(ps[j]) is Some
    &&& forall|j2: int| 0 <= j2 < j ==> fault_of(#[trigger] ps[j2]) is None
}

/// `e` reports the first faulty pattern of the parser `name`.
pub open spec fn reports(e: ClassifierError, name: Seq<char>, ps: Seq<PatternView>) -> bool {
    match e {
        ClassifierError::InvalidRegex { parser, pattern } => parser@ == name && first_fault_at(
            ps,
            pattern as int,
        ) && fault_of(ps[pattern as int]) == Some(Fault::InvalidRegex),
        ClassifierError::MissingCaptureGroup { parser, pattern } => parser@ == name
            && first_fault_at(ps, pattern as int) && fault_of(ps[pattern as int]) == Some(
            Fault::MissingCaptureGroup,
        ),
        ClassifierError::UnknownParser { parser } => false,
    }
}

/// The patterns of the parser that `name` is bound to, if it is declared.
pub open spec fn parser_named(table: Option<NameMap<Parser>>, name: Seq<char>) -> Option<
    Seq<PatternView>,
> {
    match table {
        Some(m) => if m.has(name) {
            Some(m.values()[m.position(name)]@)
        } else {
            None
        },
        None => None,
    }
}

/// The binding `name` can be used: the parser is declared and sound.
pub open spec fn binding_ok(table: Option<NameMap<Parser>>, name: Seq<char>) -> bool {
    parser_named(table, name) is Some && parser_sound(parser_named(table, name)->0)
}

/// The rules of the bound parsers, parser after parser in binding order.
pub open spec fn bound_rules(table: Option<NameMap<Parser>>, bound: Seq<Seq<char>>) -> Seq<RuleView>
    decreases bound.len(),
{
    if bound.len() == 0 {
        Seq::empty()
    } else {
        bound_rules(table, bound.drop_last()) + rules_of(parser_named(table, bound.last())->0)
    }
}

/// `e` reports the first binding that cannot be used: a parser that is
/// not declared, or the first faulty pattern of a declared one.
pub open spec fn load_fails_with(
    table: Option<NameMap<Parser>>,
    bound: Seq<Seq<char>>,
    e: ClassifierError,
) -> bool {
    exists|k: int|
        {
            &&& 0 <= k < bound.len()
            &&& forall|k2: int| 0 <= k2 < k ==> binding_ok(table, #[trigger] bound[k2])
            &&& match e {
                ClassifierError::UnknownParser { parser } => parser@ == bound[k] && parser_named(
                    table,
                    #[trigger] bound[k],
                ) is None,
                _ => parser_named(table, #[trigger] bound[k]) is Some && reports(
                    e,
                    bound[k],
                    parser_named(table, bound[k])->0,
                ),
            }
        }
}

/// A binding that is reported cannot be used.
pub proof fn lemma_reported_unusable(
    table: Option<NameMap<Parser>>,
    bound: Seq<Seq<char>>,
    e: ClassifierError,
)
    requires
        load_fails_with(table, bound, e),
    ensures
        exists|k: int| 0 <= k < bound.len() && !binding_ok(table, #[trigger] bound[k]),
{
    let k = choose|k: int|
        {
            &&& 0 <= k < bound.len()
            &&& forall|k2: int| 0 <= k2 < k ==> binding_ok(table, #[trigger] bound[k2])
            &&& match e {
                ClassifierError::UnknownParser { parser } => parser@ == bound[k] && parser_named(
                    table,
                    #[trigger] bound[k],
                ) is None,
                _ => parser_named(table, #[trigger] bound[k]) is Some && reports(
                    e,
                    bound[k],
                    parser_named(table, bound[k])->0,
                ),
            }
        };
    assert(!binding_ok(table, bound[k]));
}

/// Checks the patterns of the parser `name` and appends their rules.
pub fn compile_parser(name: &str, parser: &Parser, rules: &mut Vec<Rule>) -> (r: Result<
    (),
    ClassifierError,
>)
    ensures
        match r {
            Ok(()) => parser_sound(parser@) && rule_views(final(rules)@) == rule_views(old(rules)@)
                + rules_of(parser@),
            Err(e) => reports(e, name@, parser@),
        },
{
    let n = parser.patterns.len();
    let ghost before = rule_views(rules@);
    let mut j: usize = 0;
    while j < n
        invariant
            n == parser.patterns@.len(),
            n == parser@.len(),
            j <= n,
            forall|j2: int| 0 <= j2 < j ==> fault_of(#[trigger] parser@[j2]) is None,
            rule_views(rules@) == before + rules_of(parser@).take(j as int),
        decreases n - j,
    {
        assert(parser@[j as int] == parser.patterns@[j as int]@);
        match compile_pattern(&parser.patterns[j]) {
            Ok(rule) => {
                let ghost seen = rule_views(rules@);
                rules.push(rule);
                proof {
                    assert(rule_views(rules@) =~= seen.push(rule@));
                    assert(rules_of(parser@).take(j + 1) =~= rules_of(parser@).take(j as int).push(
                        rule_of(parser@[j as int]),
                    ));
                    assert(rule_views(rules@) =~= before + rules_of(parser@).take(j + 1));
                }
            },
            Err(Fault::InvalidRegex) => {
                return Err(ClassifierError::InvalidRegex { parser: name.to_owned(), pattern: j });
            },
            Err(Fault::MissingCaptureGroup) => {
                return Err(
                    ClassifierError::MissingCaptureGroup { parser: name.to_owned(), pattern: j },
                );
            },
        }
        j = j + 1;
    }
    proof {
        assert(rules_of(parser@).take(n as int) =~= rules_of(parser@));
    }
    Ok(())
}

impl ParserSet {
    /// Makes the rule set of the parsers bound under the names `bound`,
    /// or reports the first binding that cannot be used.
    pub fn load(table: &Option<NameMap<Parser>>, bound: &Vec<String>) -> (r: Result<
        ParserSet,
        ClassifierError,
    >)
        ensures
            match r {
                Ok(set) => set@ == bound_rules(*table, texts(bound@)) && forall|k: int|
                    0 <= k < bound@.len() ==> binding_ok(*table, #[trigger] texts(bound@)[k]),
                Err(e) => load_fails_with(*table, texts(bound@), e),
            },
    {
        let ghost names = texts(bound@);
        let n = bound.len();
        let mut rules: Vec<Rule> = Vec::new();
        let mut k: usize = 0;
        proof {
            assert(names.take(0) =~= Seq::<Seq<char>>::empty());
            assert(rule_views(rules@) =~= bound_rules(*table, names.take(0)));
        }
        while k < n
            invariant
                names == texts(bound@),
                n == bound@.len(),
                k <= n,
                forall|k2: int| 0 <= k2 < k ==> binding_ok(*table, #[trigger] names[k2]),
                rule_views(rules@) == bound_rules(*table, names.take(k as int)),
            decreases n - k,
        {
            let name = bound[k].as_str();
            assert(name@ == names[k as int]);
            let found = match table {
                Some(m) => m.get(name),
                None => None,
            };
            match found {
                None => {
                    return Err(ClassifierError::UnknownParser { parser: name.to_owned() });
                },
                Some(parser) => {
                    assert(parser_named(*table, name@) == Some(parser@));
                    match compile_parser(name, parser, &mut rules) {
                        Err(e) => {
                            return Err(e);
                        },
                        Ok(()) => {
                            proof {
                                assert(names.take(k + 1).drop_last() =~= names.take(k as int));
                                assert(names.take(k + 1).last() == names[k as int]);
                            }
                        },
                    }
                },
            }
            k = k + 1;
        }
        proof {
            assert(names.take(n as int) =~= names);
        }
        let set = ParserSet { rules };
        assert(set@ =~= rule_views(set.rules@));
        Ok(set)
    }

    /// The rule set for the output of `task`.
    pub fn for_task(table: &Option<NameMap<Parser>>, task: &Task) -> (r: Result<
        ParserSet,
        ClassifierError,
    >)
        ensures
            match r {
                Ok(set) => set@ == bound_rules(*table, task.parser_names()) && forall|k: int|
                    0 <= k < task.parser_names().len() ==> binding_ok(
                        *table,
                        #[trigger] task.parser_names()[k],
                    ),
                Err(e) => load_fails_with(*table, task.parser_names(), e),
            },
    {
        match &task.parsers {
            Some(bound) => ParserSet::load(table, bound),
            None => {
                let set = ParserSet { rules: Vec::new() };
                assert(set@ =~= Seq::<RuleView>::empty());
                Ok(set)
            },
        }
    }
}

/// Classifying a line twice gives the same event: the event is a
/// function of the rules and the line, and of nothing else.
pub proof fn lemma_classify_repeatable(set: ParserSet, line: Seq<char>, first: Event, second: Event)
    requires
        first@ == classified(set@, line),
        second@ == classified(set@, line),
    ensures
        first@ == second@,
{
}

/// The output stream that a line came from.
#[derive(Clone, Copy, Debug, PartialEq, Eq, Structural)]
pub enum Stream {
    Stdout,
    Stderr,
}

/// A classified line on its way to the display or the log.
#[derive(Debug, Clone)]
pub struct LineEvent {
    pub task: String,
    pub stream: Stream,
    pub text: String,
    pub event: Event,
}

impl ParserSet {
    /// Classifies a line of the task `task` and labels it for the sink.
    pub fn line_event(&self, task: &str, stream: Stream, text: &str) -> (e: LineEvent)
        ensures
            e.task@ == task@,
            e.stream == stream,
            e.text@ == text@,
            e.event@ == classified(self@, text@),
    {
        LineEvent { task: task.to_owned(), stream, text: text.to_owned(), event: self.classify(text) }
    }
}

} // verus!
