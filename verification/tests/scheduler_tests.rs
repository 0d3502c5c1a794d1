use taskr::classifier::ClassifierError;
use taskr::config::{Config, ConfigError, GlobalConfig, Parser, Pattern, Task};
use taskr::name_map::NameMap;
use taskr::scheduler::{Report, RunState, Scheduler, Status};

fn task(command: &str, deps: &[&str]) -> Task {
    Task {
        command: command.to_string(),
        description: None,
        parsers: None,
        watch_files: None,
        depends_on: if deps.is_empty() {
            None
        } else {
            Some(deps.iter().map(|d| d.to_string()).collect())
        },
        auto_restart: None,
        port_check: None,
        env: None,
        working_dir: None,
    }
}

fn statuses(s: &Scheduler) -> Vec<Status> {
    (0..s.len()).map(|j| s.status_of(j)).collect()
}

#[test]
fn cap_of_one_never_runs_two_roots_together() {
    let mut s = Scheduler::new(vec![vec![], vec![]], 1).unwrap();
    assert_eq!(s.dispatch(), Some(0));
    assert_eq!(s.running(), 1);
    assert_eq!(s.dispatch(), None);
    assert_eq!(s.running(), 1);
    assert_eq!(s.status_of(1), Status::Waiting);
    s.report(0, Report::Succeeded);
    assert_eq!(s.running(), 0);
    assert_eq!(s.dispatch(), Some(1));
    assert_eq!(s.dispatch(), None);
    s.report(1, Report::Succeeded);
    assert_eq!(s.run_state(), RunState::Succeeded);
}

#[test]
fn cap_of_two_may_run_two_roots_together() {
    let mut s = Scheduler::new(vec![vec![], vec![], vec![]], 2).unwrap();
    assert_eq!(s.dispatch(), Some(0));
    assert_eq!(s.dispatch(), Some(1));
    assert_eq!(s.running(), 2);
    assert_eq!(s.dispatch(), None);
    s.report(1, Report::Succeeded);
    assert_eq!(s.dispatch(), Some(2));
    assert_eq!(s.running(), 2);
}

#[test]
fn cap_of_zero_starts_nothing() {
    let mut s = Scheduler::new(vec![vec![]], 0).unwrap();
    assert_eq!(s.dispatch(), None);
    assert_eq!(s.run_state(), RunState::Active);
}

#[test]
fn chain_runs_one_after_the_other() {
    let mut s = Scheduler::new(vec![vec![], vec![0], vec![1]], 4).unwrap();
    assert_eq!(s.run_state(), RunState::Active);
    assert_eq!(s.dispatch(), Some(0));
    assert_eq!(s.dispatch(), None);
    s.report(0, Report::Succeeded);
    assert_eq!(s.dispatch(), Some(1));
    assert_eq!(s.dispatch(), None);
    s.report(1, Report::Succeeded);
    assert_eq!(s.dispatch(), Some(2));
    s.report(2, Report::Succeeded);
    assert_eq!(s.dispatch(), None);
    assert_eq!(s.run_state(), RunState::Succeeded);
}

#[test]
fn dependent_of_a_server_starts_once_it_is_ready() {
    let mut s = Scheduler::new(vec![vec![], vec![0]], 4).unwrap();
    assert_eq!(s.dispatch(), Some(0));
    assert_eq!(s.dispatch(), None);
    s.report(0, Report::Ready);
    assert_eq!(s.status_of(0), Status::InFlight);
    assert_eq!(s.dispatch(), Some(1));
    assert_eq!(s.running(), 2);
}

#[test]
fn failure_skips_dependents_and_spares_other_branches() {
    // 0: root a, 1: root b, 2: a's child, 3: child of 2, 4: b's child.
    let mut s = Scheduler::new(vec![vec![], vec![], vec![0], vec![2], vec![1]], 2).unwrap();
    assert_eq!(s.dispatch(), Some(0));
    assert_eq!(s.dispatch(), Some(1));
    s.report(0, Report::Failed);
    assert_eq!(statuses(&s), vec![
        Status::Failed,
        Status::InFlight,
        Status::Skipped,
        Status::Skipped,
        Status::Waiting
    ]);
    assert_eq!(s.running(), 1);
    assert_eq!(s.run_state(), RunState::Active);
    assert_eq!(s.dispatch(), None);
    s.report(1, Report::Succeeded);
    assert_eq!(s.dispatch(), Some(4));
    s.report(4, Report::Succeeded);
    assert_eq!(s.dispatch(), None);
    assert_eq!(s.run_state(), RunState::Failed);
    assert_eq!(statuses(&s), vec![
        Status::Failed,
        Status::Succeeded,
        Status::Skipped,
        Status::Skipped,
        Status::Succeeded
    ]);
}

#[test]
fn readiness_timeout_lets_dependents_down_but_keeps_the_slot() {
    let mut s = Scheduler::new(vec![vec![], vec![0], vec![]], 2).unwrap();
    assert_eq!(s.dispatch(), Some(0));
    s.report(0, Report::TimedOut);
    assert_eq!(statuses(&s), vec![Status::InFlight, Status::Skipped, Status::Waiting]);
    assert_eq!(s.running(), 1);
    assert_eq!(s.dispatch(), Some(2));
}

#[test]
fn run_with_a_late_task_is_failed_even_if_the_task_exits_well() {
    let mut s = Scheduler::new(vec![vec![]], 1).unwrap();
    assert_eq!(s.dispatch(), Some(0));
    s.report(0, Report::TimedOut);
    assert_eq!(s.run_state(), RunState::Active);
    s.report(0, Report::Succeeded);
    assert_eq!(s.status_of(0), Status::Succeeded);
    assert_eq!(s.run_state(), RunState::Failed);

    let mut t = Scheduler::new(vec![vec![]], 1).unwrap();
    t.dispatch();
    t.report(0, Report::Ready);
    t.report(0, Report::Succeeded);
    assert_eq!(t.run_state(), RunState::Succeeded);
}

#[test]
fn late_failure_of_a_ready_server_skips_what_still_waits() {
    // 1 and 2 depend on the server 0; 3 depends on 1.
    let mut s = Scheduler::new(vec![vec![], vec![0], vec![0], vec![1]], 2).unwrap();
    s.dispatch();
    s.report(0, Report::Ready);
    assert_eq!(s.dispatch(), Some(1));
    assert_eq!(s.dispatch(), None);
    s.report(0, Report::Failed);
    assert_eq!(statuses(&s), vec![
        Status::Failed,
        Status::InFlight,
        Status::Skipped,
        Status::Skipped
    ]);
    s.report(1, Report::Succeeded);
    assert_eq!(s.dispatch(), None);
    assert_eq!(s.run_state(), RunState::Failed);
}

#[test]
fn reports_about_tasks_not_in_flight_are_ignored() {
    let mut s = Scheduler::new(vec![vec![], vec![0]], 2).unwrap();
    s.report(1, Report::Failed);
    s.report(0, Report::Succeeded);
    s.report(7, Report::Failed);
    assert_eq!(statuses(&s), vec![Status::Waiting, Status::Waiting]);
    assert_eq!(s.running(), 0);
    assert_eq!(s.dispatch(), Some(0));
    s.report(0, Report::Succeeded);
    s.report(0, Report::Failed);
    assert_eq!(s.status_of(0), Status::Succeeded);
}

#[test]
fn dependencies_must_point_back() {
    assert!(Scheduler::new(vec![vec![0]], 1).is_none());
    assert!(Scheduler::new(vec![vec![1], vec![]], 1).is_none());
    assert!(Scheduler::new(vec![vec![], vec![5]], 1).is_none());
    assert!(Scheduler::new(vec![], 1).is_some());
    assert_eq!(Scheduler::new(vec![], 1).unwrap().run_state(), RunState::Succeeded);
}

#[test]
fn plan_run_lines_the_scheduler_up_with_the_order() {
    let mut tasks = NameMap::new();
    tasks.insert("install".to_string(), task("i", &[]));
    tasks.insert("build".to_string(), task("b", &["install"]));
    tasks.insert("assets".to_string(), task("a", &[]));
    tasks.insert("test".to_string(), task("t", &["build", "assets"]));
    let config = Config {
        global: Some(GlobalConfig { log_level: None, max_parallel: Some(1), output_dir: None }),
        tasks,
        parsers: None,
    };
    let mut plan = config.plan_run("test").unwrap();
    assert_eq!(plan.order, vec!["assets", "install", "build", "test"]);
    assert_eq!(plan.scheduler.len(), 4);
    let mut ran = Vec::new();
    while let Some(j) = plan.scheduler.dispatch() {
        assert_eq!(plan.scheduler.running(), 1);
        ran.push(plan.order[j].clone());
        plan.scheduler.report(j, Report::Succeeded);
    }
    assert_eq!(ran, plan.order);
    assert_eq!(plan.scheduler.run_state(), RunState::Succeeded);

    assert!(matches!(config.plan_run("nothing"), Err(ConfigError::TaskNotFound(_))));
}

#[test]
fn plan_run_uses_the_default_cap() {
    let mut tasks = NameMap::new();
    for name in ["a", "b", "c", "d", "e"] {
        tasks.insert(name.to_string(), task(name, &[]));
    }
    tasks.insert("all".to_string(), task("all", &["a", "b", "c", "d", "e"]));
    let config = Config { global: None, tasks, parsers: None };
    let mut plan = config.plan_run("all").unwrap();
    assert_eq!(plan.order, vec!["a", "b", "c", "d", "e", "all"]);
    let mut started = 0;
    while plan.scheduler.dispatch().is_some() {
        started += 1;
    }
    assert_eq!(started, 4);
    assert_eq!(plan.scheduler.running(), 4);
}

#[test]
fn plan_run_fills_in_the_cap_of_a_partly_declared_block() {
    let mut tasks = NameMap::new();
    for name in ["a", "b", "c", "d", "e"] {
        tasks.insert(name.to_string(), task(name, &[]));
    }
    tasks.insert("all".to_string(), task("all", &["a", "b", "c", "d", "e"]));
    let config = Config {
        global: Some(GlobalConfig {
            log_level: Some("debug".to_string()),
            max_parallel: None,
            output_dir: None,
        }),
        tasks,
        parsers: None,
    };
    let mut plan = config.plan_run("all").unwrap();
    let mut started = 0;
    while plan.scheduler.dispatch().is_some() {
        started += 1;
    }
    assert_eq!(started, 4);
}

#[test]
fn failing_task_blocks_its_chain_in_a_planned_run() {
    let mut tasks = NameMap::new();
    tasks.insert("a".to_string(), task("a", &[]));
    tasks.insert("b".to_string(), task("b", &["a"]));
    tasks.insert("c".to_string(), task("c", &["b"]));
    tasks.insert("side".to_string(), task("s", &[]));
    tasks.insert("z".to_string(), task("z", &["c", "side"]));
    let config = Config { global: None, tasks, parsers: None };
    let mut plan = config.plan_run("z").unwrap();
    assert_eq!(plan.order, vec!["a", "b", "c", "side", "z"]);
    assert_eq!(plan.scheduler.dispatch(), Some(0));
    assert_eq!(plan.scheduler.dispatch(), Some(3));
    plan.scheduler.report(0, Report::Failed);
    assert_eq!(plan.scheduler.status_of(1), Status::Skipped);
    assert_eq!(plan.scheduler.status_of(2), Status::Skipped);
    assert_eq!(plan.scheduler.status_of(3), Status::InFlight);
    assert_eq!(plan.scheduler.status_of(4), Status::Skipped);
    plan.scheduler.report(3, Report::Succeeded);
    assert_eq!(plan.scheduler.status_of(3), Status::Succeeded);
    assert_eq!(plan.scheduler.dispatch(), None);
    assert_eq!(plan.scheduler.run_state(), RunState::Failed);
}

#[test]
fn rule_sets_are_made_for_every_planned_task() {
    let pattern = |regex: &str, extract: Option<&str>| Pattern {
        regex: regex.to_string(),
        level: "warn".to_string(),
        extract: extract.map(|e| e.to_string()),
        action: None,
    };
    let mut parsers = NameMap::new();
    parsers.insert("good".to_string(), Parser { patterns: vec![pattern("a(b)", Some("f")), pattern("c", None)] });
    parsers.insert("bad".to_string(), Parser { patterns: vec![pattern("fine", None), pattern("(open", None)] });
    parsers.insert("plain".to_string(), Parser { patterns: vec![pattern("x", Some("f"))] });
    let bound = |names: &[&str]| Task {
        parsers: Some(names.iter().map(|n| n.to_string()).collect()),
        ..task("run", &[])
    };
    let mut tasks = NameMap::new();
    tasks.insert("first".to_string(), bound(&["good"]));
    tasks.insert("second".to_string(), task("run", &[]));
    tasks.insert("third".to_string(), bound(&["good", "bad"]));
    tasks.insert("fourth".to_string(), bound(&["plain"]));
    let config = Config { global: None, tasks, parsers: Some(parsers) };

    let order = vec!["first".to_string(), "second".to_string(), "unknown".to_string()];
    let sets = config.rule_sets(&order).unwrap();
    assert_eq!(sets.len(), 3);
    assert_eq!(sets[0].rules.len(), 2);
    assert_eq!(sets[0].rules[0].regex, "a(b)");
    assert!(sets[1].rules.is_empty());
    assert!(sets[2].rules.is_empty());
    assert!(config.rule_sets(&vec![]).unwrap().is_empty());

    // The first faulty task in the order decides the error.
    let order = vec!["first".to_string(), "third".to_string(), "fourth".to_string()];
    match config.rule_sets(&order) {
        Err(ClassifierError::InvalidRegex { parser, pattern }) => {
            assert_eq!(parser, "bad");
            assert_eq!(pattern, 1);
        }
        other => panic!("expected an invalid regex, got {:?}", other),
    }
    let order = vec!["fourth".to_string(), "third".to_string()];
    match config.rule_sets(&order) {
        Err(ClassifierError::MissingCaptureGroup { parser, pattern }) => {
            assert_eq!(parser, "plain");
            assert_eq!(pattern, 0);
        }
        other => panic!("expected a missing capture group, got {:?}", other),
    }
}
