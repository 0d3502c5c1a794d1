use taskr::classifier::{
    compile_parser, compile_pattern, event_for, parse_action, parse_level, passthrough_event,
    rule_from, Action, ClassifierError, Fault, Level, ParserSet, Rule,
};
use taskr::config::{Parser, Pattern, Task};
use taskr::name_map::NameMap;

fn pattern(regex: &str, level: &str, extract: Option<&str>, action: Option<&str>) -> Pattern {
    Pattern {
        regex: regex.to_string(),
        level: level.to_string(),
        extract: extract.map(|s| s.to_string()),
        action: action.map(|s| s.to_string()),
    }
}

fn rule(regex: &str, level: Level, extract: Option<&str>, action: Option<Action>) -> Rule {
    Rule { regex: regex.to_string(), level, extract: extract.map(|s| s.to_string()), action }
}

fn table() -> Option<NameMap<Parser>> {
    let mut m = NameMap::new();
    m.insert(
        "yarn".to_string(),
        Parser {
            patterns: vec![
                pattern("warning (.+)", "warn", Some("message"), None),
                pattern("error (.+)", "error", Some("message"), None),
            ],
        },
    );
    m.insert(
        "server".to_string(),
        Parser {
            patterns: vec![
                pattern("listening on port (\\d+)", "success", Some("port"), Some("ready")),
                pattern("warning", "info", None, Some("flash")),
            ],
        },
    );
    m.insert("broken".to_string(), Parser { patterns: vec![pattern("(unclosed", "info", None, None)] });
    m.insert(
        "groupless".to_string(),
        Parser {
            patterns: vec![
                pattern("fine", "info", None, None),
                pattern("no group here", "info", Some("field"), None),
            ],
        },
    );
    Some(m)
}

fn bound(names: &[&str]) -> Vec<String> {
    names.iter().map(|n| n.to_string()).collect()
}

#[test]
fn levels_and_actions_by_name() {
    assert_eq!(parse_level("info"), Level::Info);
    assert_eq!(parse_level("warn"), Level::Warn);
    assert_eq!(parse_level("error"), Level::Error);
    assert_eq!(parse_level("success"), Level::Success);
    assert_eq!(parse_level("WARN"), Level::Info);
    assert_eq!(parse_level(""), Level::Info);
    assert_eq!(parse_action("ready"), Action::Ready);
    assert_eq!(parse_action("Ready"), Action::Unknown);
    assert_eq!(parse_action("reload"), Action::Unknown);
}

#[test]
fn first_match_wins() {
    let set = ParserSet {
        rules: vec![
            rule("error", Level::Error, None, None),
            rule("error: (.+)", Level::Warn, Some("message"), None),
            rule(".*", Level::Success, None, Some(Action::Ready)),
        ],
    };
    let e = set.classify("error: disk full");
    assert_eq!(e.level, Level::Error);
    assert!(e.extract.is_none());
    assert_eq!(e.action, None);

    let e = set.classify("all good");
    assert_eq!(e.level, Level::Success);
    assert_eq!(e.action, Some(Action::Ready));
}

#[test]
fn unmatched_line_passes_through() {
    let set = ParserSet { rules: vec![rule("^warning", Level::Warn, None, Some(Action::Ready))] };
    let e = set.classify("nothing to see");
    assert_eq!(e.level, Level::Info);
    assert!(e.extract.is_none());
    assert_eq!(e.action, None);

    let empty = ParserSet { rules: vec![] };
    let e = empty.classify("warning: x");
    assert_eq!(e.level, Level::Info);
    assert!(e.extract.is_none());
    assert_eq!(e.action, None);

    let p = passthrough_event();
    assert_eq!(p.level, Level::Info);
    assert!(p.extract.is_none());
    assert_eq!(p.action, None);
}

#[test]
fn first_group_is_extracted() {
    let set = ParserSet {
        rules: vec![
            rule("Found (\\d+) error", Level::Error, Some("count"), None),
            rule("(a)|b", Level::Warn, Some("letter"), None),
        ],
    };
    let e = set.classify("tsc: Found 12 errors. Watching for file changes.");
    assert_eq!(e.level, Level::Error);
    let x = e.extract.unwrap();
    assert_eq!(x.field, "count");
    assert_eq!(x.value, "12");

    // The group takes no part in the match: no field.
    let e = set.classify("b");
    assert_eq!(e.level, Level::Warn);
    assert!(e.extract.is_none());

    let e = set.classify("a");
    assert_eq!(e.extract.unwrap().value, "a");
}

#[test]
fn a_pattern_matches_anywhere_unless_anchored() {
    let loose = ParserSet { rules: vec![rule("done", Level::Success, None, None)] };
    assert_eq!(loose.classify("all done here").level, Level::Success);
    let anchored = ParserSet { rules: vec![rule("^done$", Level::Success, None, None)] };
    assert_eq!(anchored.classify("all done here").level, Level::Info);
    assert_eq!(anchored.classify("done").level, Level::Success);
}

#[test]
fn classify_is_repeatable() {
    let set = ParserSet::load(&table(), &bound(&["yarn", "server"])).unwrap();
    let line = "warning package.json: No license field";
    let a = set.classify(line);
    let b = set.classify(line);
    assert_eq!(a.level, b.level);
    assert_eq!(a.action, b.action);
    assert_eq!(a.extract.as_ref().unwrap().field, b.extract.as_ref().unwrap().field);
    assert_eq!(a.extract.unwrap().value, b.extract.unwrap().value);
}

#[test]
fn an_invalid_rule_never_matches() {
    let set = ParserSet {
        rules: vec![rule("(unclosed", Level::Error, None, None), rule("x", Level::Warn, None, None)],
    };
    assert_eq!(set.classify("(unclosed x").level, Level::Warn);
}

#[test]
fn classify_given_takes_the_first_capture() {
    let set = ParserSet {
        rules: vec![
            rule("a", Level::Error, Some("f"), None),
            rule("b", Level::Warn, Some("g"), Some(Action::Ready)),
            rule("c", Level::Success, None, None),
        ],
    };
    let e = set.classify_given(&vec![None, Some(Some("v".to_string())), Some(None)]);
    assert_eq!(e.level, Level::Warn);
    assert_eq!(e.action, Some(Action::Ready));
    let x = e.extract.unwrap();
    assert_eq!(x.field, "g");
    assert_eq!(x.value, "v");

    let e = set.classify_given(&vec![None, None, Some(Some("ignored".to_string()))]);
    assert_eq!(e.level, Level::Success);
    assert!(e.extract.is_none());

    let e = set.classify_given(&vec![None, None, None]);
    assert_eq!(e.level, Level::Info);
    let e = set.classify_given(&vec![]);
    assert_eq!(e.level, Level::Info);
    let e = set.classify_given(&vec![Some(None)]);
    assert_eq!(e.level, Level::Error);
    assert!(e.extract.is_none());
}

#[test]
fn event_for_attaches_the_capture() {
    let r = rule("x", Level::Warn, Some("message"), Some(Action::Unknown));
    let e = event_for(&r, Some("text".to_string()));
    assert_eq!(e.level, Level::Warn);
    assert_eq!(e.action, Some(Action::Unknown));
    let x = e.extract.unwrap();
    assert_eq!(x.field, "message");
    assert_eq!(x.value, "text");
    assert!(event_for(&r, None).extract.is_none());
    let plain = rule("x", Level::Warn, None, None);
    assert!(event_for(&plain, Some("text".to_string())).extract.is_none());
}

#[test]
fn rule_from_checks_the_group_count() {
    let p = pattern("a(b)", "error", Some("f"), Some("ready"));
    let r = rule_from(&p, Some(2)).unwrap();
    assert_eq!(r.regex, "a(b)");
    assert_eq!(r.level, Level::Error);
    assert_eq!(r.extract.as_deref(), Some("f"));
    assert_eq!(r.action, Some(Action::Ready));
    assert!(matches!(rule_from(&p, Some(1)), Err(Fault::MissingCaptureGroup)));
    assert!(matches!(rule_from(&p, None), Err(Fault::InvalidRegex)));
    let q = pattern("ab", "info", None, None);
    assert!(rule_from(&q, Some(1)).is_ok());
    assert!(matches!(rule_from(&q, None), Err(Fault::InvalidRegex)));
}

#[test]
fn compile_pattern_counts_groups_with_the_regex_engine() {
    assert!(compile_pattern(&pattern("warning (.+)", "warn", Some("m"), None)).is_ok());
    assert!(matches!(
        compile_pattern(&pattern("warning .+", "warn", Some("m"), None)),
        Err(Fault::MissingCaptureGroup)
    ));
    assert!(matches!(
        compile_pattern(&pattern("warning (?:.+)", "warn", Some("m"), None)),
        Err(Fault::MissingCaptureGroup)
    ));
    assert!(compile_pattern(&pattern("warning .+", "warn", None, None)).is_ok());
    assert!(matches!(
        compile_pattern(&pattern("warning (.+", "warn", None, None)),
        Err(Fault::InvalidRegex)
    ));
}

#[test]
fn compile_parser_appends_rules() {
    let t = table().unwrap();
    let mut rules = vec![rule("first", Level::Info, None, None)];
    assert!(compile_parser("yarn", t.get("yarn").unwrap(), &mut rules).is_ok());
    assert_eq!(rules.len(), 3);
    assert_eq!(rules[0].regex, "first");
    assert_eq!(rules[1].regex, "warning (.+)");
    assert_eq!(rules[1].level, Level::Warn);
    assert_eq!(rules[2].regex, "error (.+)");
    assert_eq!(rules[2].level, Level::Error);
}

#[test]
fn load_binds_parsers_in_binding_order() {
    let set = ParserSet::load(&table(), &bound(&["server", "yarn"])).unwrap();
    let regexes: Vec<&str> = set.rules.iter().map(|r| r.regex.as_str()).collect();
    assert_eq!(regexes, vec!["listening on port (\\d+)", "warning", "warning (.+)", "error (.+)"]);
    assert_eq!(set.rules[0].action, Some(Action::Ready));
    assert_eq!(set.rules[1].action, Some(Action::Unknown));
    assert_eq!(set.rules[2].action, None);

    // "warning" of the parser bound first claims the line.
    let e = set.classify("warning something");
    assert_eq!(e.level, Level::Info);
    assert_eq!(e.action, Some(Action::Unknown));

    let other = ParserSet::load(&table(), &bound(&["yarn", "server"])).unwrap();
    let e = other.classify("warning something");
    assert_eq!(e.level, Level::Warn);
    assert_eq!(e.extract.unwrap().value, "something");

    let e = set.classify("listening on port 3000");
    assert_eq!(e.level, Level::Success);
    assert_eq!(e.action, Some(Action::Ready));
    let x = e.extract.unwrap();
    assert_eq!(x.field, "port");
    assert_eq!(x.value, "3000");
}

#[test]
fn load_reports_the_first_fault() {
    match ParserSet::load(&table(), &bound(&["yarn", "nowhere", "broken"])) {
        Err(ClassifierError::UnknownParser { parser }) => assert_eq!(parser, "nowhere"),
        other => panic!("expected an unknown parser, got {:?}", other),
    }
    match ParserSet::load(&table(), &bound(&["yarn", "broken", "nowhere"])) {
        Err(ClassifierError::InvalidRegex { parser, pattern }) => {
            assert_eq!(parser, "broken");
            assert_eq!(pattern, 0);
        }
        other => panic!("expected an invalid regex, got {:?}", other),
    }
    match ParserSet::load(&table(), &bound(&["groupless"])) {
        Err(ClassifierError::MissingCaptureGroup { parser, pattern }) => {
            assert_eq!(parser, "groupless");
            assert_eq!(pattern, 1);
        }
        other => panic!("expected a missing capture group, got {:?}", other),
    }
    assert!(matches!(
        ParserSet::load(&None, &bound(&["yarn"])),
        Err(ClassifierError::UnknownParser { .. })
    ));
    assert!(ParserSet::load(&None, &bound(&[])).unwrap().rules.is_empty());
}

#[test]
fn for_task_uses_the_bindings_of_the_task() {
    let mut t = Task {
        command: "yarn dev".to_string(),
        description: None,
        parsers: None,
        watch_files: None,
        depends_on: None,
        auto_restart: None,
        port_check: None,
        env: None,
        working_dir: None,
    };
    assert!(ParserSet::for_task(&table(), &t).unwrap().rules.is_empty());
    t.parsers = Some(bound(&["yarn"]));
    assert_eq!(ParserSet::for_task(&table(), &t).unwrap().rules.len(), 2);
    t.parsers = Some(bound(&["broken"]));
    assert!(ParserSet::for_task(&table(), &t).is_err());
}
