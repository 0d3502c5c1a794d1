use taskr::config::{Config, ConfigError, GlobalConfig, Parser, Pattern, Task};
use taskr::name_map::NameMap;

fn task(command: &str, deps: &[&str]) -> Task {
    Task {
        command: command.to_string(),
        description: None,
        parsers: None,
        watch_files: None,
        depends_on: if deps.is_empty() {
            None
        } else {
            Some(deps.iter().map(|d| d.to_string()).collect())
        },
        auto_restart: None,
        port_check: None,
        env: None,
        working_dir: None,
    }
}

fn pattern(regex: &str, level: &str) -> Pattern {
    Pattern { regex: regex.to_string(), level: level.to_string(), extract: None, action: None }
}

fn config(tasks: Vec<(&str, Task)>) -> Config {
    let mut map = NameMap::new();
    for (name, t) in tasks {
        map.insert(name.to_string(), t);
    }
    Config { global: None, tasks: map, parsers: None }
}

fn text_of(table: &toml::Table, key: &str) -> Option<String> {
    table.get(key).map(|v| v.as_str().unwrap().to_string())
}

fn list_of(table: &toml::Table, key: &str) -> Option<Vec<String>> {
    table
        .get(key)
        .map(|v| v.as_array().unwrap().iter().map(|x| x.as_str().unwrap().to_string()).collect())
}

/// Reads a configuration written in TOML and checks it.
fn load_from_string(content: &str) -> Result<Config, ConfigError> {
    let root: toml::Table = match content.parse() {
        Ok(root) => root,
        Err(e) => return Err(ConfigError::ParseError(e.to_string())),
    };
    let global = root.get("global").map(|g| {
        let g = g.as_table().unwrap();
        GlobalConfig {
            log_level: text_of(g, "log_level"),
            max_parallel: g.get("max_parallel").map(|v| v.as_integer().unwrap() as u32),
            output_dir: text_of(g, "output_dir"),
        }
    });
    let mut tasks = NameMap::new();
    if let Some(declared) = root.get("tasks") {
        for (name, t) in declared.as_table().unwrap() {
            let t = t.as_table().unwrap();
            tasks.insert(name.clone(), Task {
                command: text_of(t, "command").unwrap(),
                description: text_of(t, "description"),
                parsers: list_of(t, "parsers"),
                watch_files: list_of(t, "watch_files"),
                depends_on: list_of(t, "depends_on"),
                auto_restart: t.get("auto_restart").map(|v| v.as_bool().unwrap()),
                port_check: t.get("port_check").map(|v| v.as_integer().unwrap() as u16),
                env: None,
                working_dir: text_of(t, "working_dir"),
            });
        }
    }
    let parsers = root.get("parsers").map(|declared| {
        let mut parsers = NameMap::new();
        for (name, p) in declared.as_table().unwrap() {
            let patterns = p.as_table().unwrap()["patterns"]
                .as_array()
                .unwrap()
                .iter()
                .map(|x| {
                    let x = x.as_table().unwrap();
                    Pattern {
                        regex: text_of(x, "regex").unwrap(),
                        level: text_of(x, "level").unwrap(),
                        extract: text_of(x, "extract"),
                        action: text_of(x, "action"),
                    }
                })
                .collect();
            parsers.insert(name.clone(), Parser { patterns });
        }
        parsers
    });
    Config::load(global, tasks, parsers)
}

#[test]
fn test_parse_basic_config() {
    let toml_content = r#"
[global]
log_level = "debug"
max_parallel = 2

[tasks.install]
command = "yarn install"
description = "Install dependencies"

[tasks.dev]
command = "yarn dev"
depends_on = ["install"]
auto_restart = true

[parsers.yarn-install]
patterns = [
    { regex = "warning (.+)", level = "warn" },
    { regex = "error (.+)", level = "error" }
]
        "#;

    let config = load_from_string(toml_content).unwrap();

    assert_eq!(config.global.as_ref().unwrap().log_level.as_ref().unwrap(), "debug");
    assert_eq!(config.tasks.len(), 2);
    assert!(config.tasks.contains_key("install"));
    assert!(config.tasks.contains_key("dev"));

    let dev_task = config.tasks.get("dev").unwrap();
    assert_eq!(dev_task.command, "yarn dev");
    assert_eq!(dev_task.depends_on.as_ref().unwrap(), &vec!["install"]);
}

#[test]
fn test_invalid_dependency() {
    let toml_content = r#"
[tasks.dev]
command = "yarn dev"
depends_on = ["nonexistent"]
        "#;

    let result = load_from_string(toml_content);
    assert!(result.is_err());
    assert!(matches!(result.unwrap_err(), ConfigError::InvalidDependency { .. }));
}

#[test]
fn test_get_root_tasks() {
    let toml_content = r#"
[tasks.install]
command = "yarn install"

[tasks.dev]
command = "yarn dev"
depends_on = ["install"]

[tasks.test]
command = "yarn test"
        "#;

    let config = load_from_string(toml_content).unwrap();
    let mut root_tasks = config.get_root_tasks();
    root_tasks.sort();

    assert_eq!(root_tasks, vec!["install", "test"]);
}

#[test]
fn loading_from_parts_matches_loading_from_text() {
    let mut tasks = NameMap::new();
    tasks.insert("install".to_string(), task("yarn install", &[]));
    tasks.insert("dev".to_string(), task("yarn dev", &["install"]));
    let mut parsers = NameMap::new();
    parsers.insert(
        "yarn-install".to_string(),
        Parser { patterns: vec![pattern("warning (.+)", "warn"), pattern("error (.+)", "error")] },
    );
    let config = Config::load(None, tasks, Some(parsers)).unwrap();
    assert_eq!(config.tasks.len(), 2);
    assert_eq!(config.get_root_tasks(), vec!["install"]);
    assert_eq!(config.parsers.as_ref().unwrap().get("yarn-install").unwrap().patterns.len(), 2);
}

#[test]
fn execution_order_of_a_chain() {
    let config = config(vec![
        ("install", task("yarn install", &[])),
        ("build", task("yarn build", &["install"])),
        ("test", task("yarn test", &["build"])),
    ]);
    assert_eq!(config.get_exec_order("test").unwrap(), vec!["install", "build", "test"]);
    assert_eq!(config.get_exec_order("build").unwrap(), vec!["install", "build"]);
    assert_eq!(config.get_exec_order("install").unwrap(), vec!["install"]);
}
