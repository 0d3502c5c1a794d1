use taskr::classifier::{Level, ParserSet};
use taskr::cli::{Cli, Commands};
use taskr::commands::add::{
    build_task, custom_parser, get_predefined_parser, get_tasks_from_config, parse_port,
    parse_watch_files, predefined_parser_names, predefined_selection, selected_names, trim,
    AddArgs, TaskAnswers,
};
use taskr::config::{Config, Parser, Pattern, Task};
use taskr::locate::{config_file_names, select_config_file};
use taskr::name_map::NameMap;

fn answers() -> TaskAnswers {
    TaskAnswers {
        command: "yarn dev".to_string(),
        description: String::new(),
        depends_on: None,
        watch_files: String::new(),
        auto_restart: false,
        working_dir: String::new(),
        port_check: String::new(),
        parsers: vec![],
    }
}

fn names(p: &Parser) -> Vec<(&str, &str, Option<&str>)> {
    p.patterns
        .iter()
        .map(|x| {
            assert!(x.action.is_none());
            (x.regex.as_str(), x.level.as_str(), x.extract.as_deref())
        })
        .collect()
}

#[test]
fn trim_cuts_white_space_at_both_ends() {
    assert_eq!(trim("  a b  "), "a b");
    assert_eq!(trim("\t\n x"), "x");
    assert_eq!(trim("x \u{3000}"), "x");
    assert_eq!(trim("   "), "");
    assert_eq!(trim(""), "");
    assert_eq!(trim("plain"), "plain");
    for s in [" é ", "\u{00A0}a\u{2003}", " a  b ", "\r\n"] {
        assert_eq!(trim(s), s.trim());
    }
}

#[test]
fn watch_files_are_split_and_trimmed() {
    assert_eq!(parse_watch_files("src/**, Cargo.toml"), vec!["src/**", "Cargo.toml"]);
    assert_eq!(parse_watch_files(" a ,, b ,   ,c,"), vec!["a", "b", "c"]);
    assert!(parse_watch_files("").is_empty());
    assert!(parse_watch_files(" , ,").is_empty());
    assert_eq!(parse_watch_files("one"), vec!["one"]);
    assert_eq!(parse_watch_files("a b , c"), vec!["a b", "c"]);
    for s in ["x,y", ",x", "x,", " x , y ,", "é, ü ,"] {
        let expected: Vec<String> =
            s.split(',').map(|p| p.trim().to_string()).filter(|p| !p.is_empty()).collect();
        assert_eq!(parse_watch_files(s), expected);
    }
}

#[test]
fn ports_are_parsed_like_numbers() {
    assert_eq!(parse_port("3000"), Some(3000));
    assert_eq!(parse_port("0"), Some(0));
    assert_eq!(parse_port("65535"), Some(65535));
    assert_eq!(parse_port("65536"), None);
    assert_eq!(parse_port("+80"), Some(80));
    assert_eq!(parse_port("0000000000000000000080"), Some(80));
    assert_eq!(parse_port("99999999999999999999"), None);
    assert_eq!(parse_port(""), None);
    assert_eq!(parse_port("+"), None);
    assert_eq!(parse_port("-1"), None);
    assert_eq!(parse_port("-0"), None);
    assert_eq!(parse_port(" 80"), None);
    assert_eq!(parse_port("80 "), None);
    assert_eq!(parse_port("8o"), None);
    assert_eq!(parse_port("++8"), None);
    assert_eq!(parse_port("٣"), None);
    for s in ["12", "+12", "70000", "x", "1x", "", "+", "-", "+0", "00", "655350"] {
        assert_eq!(parse_port(s), s.parse::<u16>().ok(), "for {:?}", s);
    }
}

#[test]
fn empty_answers_leave_settings_out() {
    let t = build_task(answers());
    assert_eq!(t.command, "yarn dev");
    assert_eq!(t.description, None);
    assert_eq!(t.depends_on, None);
    assert_eq!(t.watch_files, None);
    assert_eq!(t.auto_restart, None);
    assert_eq!(t.working_dir, None);
    assert_eq!(t.port_check, None);
    assert!(t.env.is_none());
    assert_eq!(t.parsers, None);
}

#[test]
fn answers_become_settings() {
    let t = build_task(TaskAnswers {
        command: "yarn dev".to_string(),
        description: "Dev server".to_string(),
        depends_on: Some(vec!["install".to_string()]),
        watch_files: "src, public ".to_string(),
        auto_restart: true,
        working_dir: "web".to_string(),
        port_check: "3000".to_string(),
        parsers: vec!["nextjs".to_string(), "custom".to_string()],
    });
    assert_eq!(t.description.as_deref(), Some("Dev server"));
    assert_eq!(t.depends_on, Some(vec!["install".to_string()]));
    assert_eq!(t.watch_files, Some(vec!["src".to_string(), "public".to_string()]));
    assert_eq!(t.auto_restart, Some(true));
    assert_eq!(t.working_dir.as_deref(), Some("web"));
    assert_eq!(t.port_check, Some(3000));
    assert_eq!(t.parsers, Some(vec!["nextjs".to_string(), "custom".to_string()]));

    let mut a = answers();
    a.port_check = "http".to_string();
    a.watch_files = " , ".to_string();
    let t = build_task(a);
    assert_eq!(t.port_check, None);
    assert_eq!(t.watch_files, None);
}

#[test]
fn selection_picks_names() {
    let tasks = vec!["a".to_string(), "b".to_string(), "c".to_string()];
    assert_eq!(selected_names(&tasks, &vec![]), None);
    assert_eq!(selected_names(&tasks, &vec![2, 0]), Some(vec!["c".to_string(), "a".to_string()]));
    assert_eq!(selected_names(&tasks, &vec![1]), Some(vec!["b".to_string()]));
}

#[test]
fn task_names_come_in_name_order() {
    let mut tasks: NameMap<Task> = NameMap::new();
    tasks.insert("b".to_string(), build_task(answers()));
    tasks.insert("a".to_string(), build_task(answers()));
    let config = Config { global: None, tasks, parsers: None };
    assert_eq!(get_tasks_from_config(&config), vec!["a", "b"]);
    let empty = Config { global: None, tasks: NameMap::new(), parsers: None };
    assert!(get_tasks_from_config(&empty).is_empty());
}

#[test]
fn custom_parser_has_one_pattern() {
    let p = custom_parser("oops (.+)".to_string(), "error".to_string(), "what".to_string());
    assert_eq!(names(&p), vec![("oops (.+)", "error", Some("what"))]);
    let p = custom_parser("oops".to_string(), "warn".to_string(), String::new());
    assert_eq!(names(&p), vec![("oops", "warn", None)]);
}

#[test]
fn predefined_parsers() {
    assert_eq!(names(&get_predefined_parser("yarn-install")), vec![
        ("warning (.+)", "warn", Some("message")),
        ("error (.+)", "error", Some("message")),
        ("✨  Done in (.+)s", "success", Some("duration")),
    ]);
    assert_eq!(names(&get_predefined_parser("nextjs")), vec![
        ("ready - started server on.+", "success", None),
        ("event - compiled (.+)", "info", Some("status")),
        ("wait  - compiling", "info", None),
        ("Error: (.+)", "error", Some("message")),
    ]);
    assert_eq!(names(&get_predefined_parser("webpack-dev")), vec![
        (r"webpack compiled with (\d+) warning", "warn", Some("count")),
        ("webpack compiled successfully", "success", None),
        ("Module not found: (.+)", "error", Some("message")),
    ]);
    assert_eq!(names(&get_predefined_parser("nx-serve")), vec![
        ("Web Development Server is listening", "success", None),
        ("Application bundle generation complete", "info", None),
        ("ERROR in (.+)", "error", Some("message")),
    ]);
    assert_eq!(names(&get_predefined_parser("typescript")), vec![
        (r"Found (\d+) error", "error", Some("count")),
        ("Compiled successfully", "success", None),
    ]);
    assert_eq!(names(&get_predefined_parser("jest")), vec![
        ("PASS (.+)", "success", Some("file")),
        ("FAIL (.+)", "error", Some("file")),
        (r"Tests:\s+(\d+) passed", "info", Some("passed")),
    ]);
    assert!(get_predefined_parser("unknown").patterns.is_empty());
    assert!(get_predefined_parser("").patterns.is_empty());
}

#[test]
fn predefined_parsers_load_and_classify() {
    let offered = predefined_parser_names();
    assert_eq!(offered, vec!["yarn-install", "nextjs", "webpack-dev", "nx-serve", "typescript", "jest"]);
    let table = Some(predefined_selection(&vec![0, 1, 2, 3, 4, 5]));
    let set = ParserSet::load(&table, &offered).unwrap();
    assert_eq!(set.rules.len(), 18);
    let e = set.classify("Tests:       5 passed, 5 total");
    assert_eq!(e.level, Level::Info);
    let x = e.extract.unwrap();
    assert_eq!(x.field, "passed");
    assert_eq!(x.value, "5");
    let e = set.classify("✨  Done in 4.21s.");
    assert_eq!(e.level, Level::Success);
    assert_eq!(e.extract.unwrap().value, "4.21");
    assert_eq!(set.classify("webpack compiled successfully").level, Level::Success);
}

#[test]
fn predefined_selection_is_keyed_by_name() {
    let m = predefined_selection(&vec![5, 1, 5]);
    assert_eq!(m.len(), 2);
    assert_eq!(m.key_at(0), "jest");
    assert_eq!(m.key_at(1), "nextjs");
    assert_eq!(m.get("jest").unwrap().patterns.len(), 3);
    assert_eq!(m.get("nextjs").unwrap().patterns.len(), 4);
    assert!(predefined_selection(&vec![]).is_empty());
}

#[test]
fn insert_task_declares_task_and_parsers() {
    let mut old = NameMap::new();
    old.insert("kept".to_string(), Parser { patterns: vec![] });
    old.insert(
        "jest".to_string(),
        Parser {
            patterns: vec![Pattern {
                regex: "old".to_string(),
                level: "info".to_string(),
                extract: None,
                action: None,
            }],
        },
    );
    let mut config = Config { global: None, tasks: NameMap::new(), parsers: Some(old) };
    let mut a = answers();
    a.parsers = vec!["jest".to_string()];
    config.insert_task("unit".to_string(), build_task(a), predefined_selection(&vec![5]));
    assert!(config.has_task("unit"));
    assert_eq!(config.get_task("unit").unwrap().parsers, Some(vec!["jest".to_string()]));
    let table = config.parsers.as_ref().unwrap();
    assert_eq!(table.len(), 2);
    assert!(table.get("kept").unwrap().patterns.is_empty());
    assert_eq!(table.get("jest").unwrap().patterns.len(), 3);
    assert!(config.validate().is_ok());

    let mut bare = Config { global: None, tasks: NameMap::new(), parsers: None };
    bare.insert_task("x".to_string(), build_task(answers()), NameMap::new());
    assert!(bare.parsers.as_ref().unwrap().is_empty());
    assert_eq!(bare.tasks.len(), 1);
    let mut again = answers();
    again.command = "other".to_string();
    bare.insert_task("x".to_string(), build_task(again), NameMap::new());
    assert_eq!(bare.tasks.len(), 1);
    assert_eq!(bare.get_task("x").unwrap().command, "other");
}

#[test]
fn config_file_is_the_nearest_preferred_one() {
    assert_eq!(config_file_names(), vec!["taskr.toml", ".taskr.toml", "tasks.toml", "task_runner.toml"]);
    let f = false;
    let t = true;
    assert_eq!(select_config_file(&vec![]), None);
    assert_eq!(select_config_file(&vec![vec![f, f, f, f], vec![f, f, f, f]]), None);
    assert_eq!(select_config_file(&vec![vec![f, t, t, f], vec![t, f, f, f]]), Some((0, 1)));
    assert_eq!(select_config_file(&vec![vec![f, f, f, f], vec![f, f, f, t], vec![t, t, t, t]]), Some((1, 3)));
    assert_eq!(select_config_file(&vec![vec![], vec![t]]), Some((1, 0)));
}

#[test]
fn commands_name_their_target() {
    let run = Cli { command: Commands::Run { name: "build".to_string() } };
    assert_eq!(run.command.target(), Some(&"build".to_string()));
    assert_eq!(Commands::Summary.target(), None);
    assert_eq!(Commands::Add(AddArgs {}).target(), None);
}
