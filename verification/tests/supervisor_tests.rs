use taskr::classifier::{Action, Level, ParserSet, Rule};
use taskr::config::Task;
use taskr::launch::{plan_launch, policy_for, space, split_command, LaunchError};
use taskr::supervisor::{
    since, Command, Failure, Phase, Policy, Readiness, Signal, Supervisor,
};

fn policy(restart: bool, port: Option<u16>) -> Policy {
    Policy {
        restart_on_change: restart,
        port,
        ready_action: false,
        ready_timeout_ms: 1000,
        debounce_ms: 200,
        grace_ms: 500,
    }
}

fn running(p: Policy) -> Supervisor {
    let mut s = Supervisor::new(p);
    assert_eq!(s.step(Signal::Start), Command::Spawn);
    s.step(Signal::Spawned { now: 100 });
    assert_eq!(s.phase, Phase::Running);
    s
}

fn task(command: &str) -> Task {
    Task {
        command: command.to_string(),
        description: None,
        parsers: None,
        watch_files: None,
        depends_on: None,
        auto_restart: None,
        port_check: None,
        env: None,
        working_dir: None,
    }
}

#[test]
fn one_shot_task_succeeds() {
    let mut s = Supervisor::new(policy(false, None));
    assert_eq!(s.phase, Phase::Pending);
    assert_eq!(s.readiness, Readiness::Waiting);
    assert!(!s.is_satisfied());
    assert_eq!(s.step(Signal::Start), Command::Spawn);
    assert_eq!(s.phase, Phase::Starting);
    assert_eq!(s.step(Signal::Spawned { now: 5 }), Command::Nothing);
    assert_eq!(s.phase, Phase::Running);
    assert!(s.child_alive);
    assert_eq!(s.started_at, 5);
    assert!(!s.is_satisfied());
    assert_eq!(s.step(Signal::Exited { code: 0 }), Command::Nothing);
    assert_eq!(s.phase, Phase::Succeeded);
    assert!(!s.child_alive);
    assert!(s.is_satisfied());
    assert!(!s.has_let_down());
}

#[test]
fn nonzero_exit_fails_with_the_code() {
    let mut s = running(policy(false, None));
    s.step(Signal::Exited { code: 3 });
    assert_eq!(s.phase, Phase::Failed(Failure::Exit(3)));
    assert!(s.has_let_down());
    assert!(!s.is_satisfied());
    s.step(Signal::Exited { code: -1 });
    assert_eq!(s.phase, Phase::Failed(Failure::Exit(3)));
}

#[test]
fn spawn_failure_fails_the_task() {
    let mut s = Supervisor::new(policy(false, None));
    s.step(Signal::Start);
    assert_eq!(s.step(Signal::SpawnFailed), Command::Nothing);
    assert_eq!(s.phase, Phase::Failed(Failure::SpawnFailed));
    assert!(s.has_let_down());
}

#[test]
fn port_task_is_ready_once_the_port_opens() {
    let mut s = Supervisor::new(policy(false, Some(3000)));
    s.step(Signal::Start);
    assert_eq!(s.step(Signal::Spawned { now: 0 }), Command::Probe(3000));
    assert!(!s.is_satisfied());
    assert_eq!(s.step(Signal::PortClosed { now: 300 }), Command::Probe(3000));
    assert!(!s.is_satisfied());
    assert_eq!(s.step(Signal::PortOpen), Command::Nothing);
    assert_eq!(s.readiness, Readiness::Ready);
    assert_eq!(s.phase, Phase::Running);
    assert!(s.child_alive);
    assert!(s.is_satisfied());
    assert_eq!(s.step(Signal::PortClosed { now: 5000 }), Command::Nothing);
    assert_eq!(s.readiness, Readiness::Ready);
}

#[test]
fn port_that_never_opens_times_out() {
    let mut s = Supervisor::new(policy(false, Some(3000)));
    s.step(Signal::Start);
    s.step(Signal::Spawned { now: 100 });
    assert_eq!(s.step(Signal::PortClosed { now: 1099 }), Command::Probe(3000));
    assert_eq!(s.readiness, Readiness::Waiting);
    assert_eq!(s.step(Signal::PortClosed { now: 1100 }), Command::Nothing);
    assert_eq!(s.readiness, Readiness::TimedOut);
    assert_eq!(s.phase, Phase::Running);
    assert!(s.has_let_down());
    assert!(!s.is_satisfied());
    s.step(Signal::PortOpen);
    assert_eq!(s.readiness, Readiness::TimedOut);
}

#[test]
fn tick_times_out_a_task_that_waits_for_a_ready_action() {
    let mut p = policy(false, None);
    p.ready_action = true;
    let mut s = running(p);
    assert_eq!(s.step(Signal::Tick { now: 1099 }), Command::Nothing);
    assert_eq!(s.readiness, Readiness::Waiting);
    s.step(Signal::Tick { now: 1100 });
    assert_eq!(s.readiness, Readiness::TimedOut);

    let mut t = running(policy(false, None));
    t.step(Signal::Tick { now: 100_000 });
    assert_eq!(t.readiness, Readiness::Waiting);
}

#[test]
fn ready_action_comes_before_the_port_probe() {
    let mut s = Supervisor::new(policy(false, Some(8080)));
    s.step(Signal::Start);
    s.step(Signal::Spawned { now: 0 });
    assert_eq!(s.step(Signal::Output { action: Some(Action::Ready) }), Command::Nothing);
    assert_eq!(s.readiness, Readiness::Ready);
    assert!(s.is_satisfied());
    assert_eq!(s.step(Signal::PortClosed { now: 10 }), Command::Nothing);
    assert_eq!(s.readiness, Readiness::Ready);
}

#[test]
fn unknown_action_and_plain_output_change_nothing() {
    let mut s = running(policy(false, Some(1)));
    let before = s;
    assert_eq!(s.step(Signal::Output { action: Some(Action::Unknown) }), Command::Nothing);
    assert_eq!(s, before);
    assert_eq!(s.step(Signal::Output { action: None }), Command::Nothing);
    assert_eq!(s, before);
}

#[test]
fn file_change_restarts_a_running_task() {
    let mut s = running(policy(true, None));
    assert_eq!(s.step(Signal::FileChanged { now: 1000 }), Command::Terminate);
    assert_eq!(s.phase, Phase::Restarting);
    assert_eq!(s.restarts, 1);
    assert_eq!(s.last_restart_at, Some(1000));
    assert_eq!(s.stop_sent_at, Some(1000));
    // No second restart while one is in flight.
    assert_eq!(s.step(Signal::FileChanged { now: 5000 }), Command::Nothing);
    assert_eq!(s.restarts, 1);
    assert_eq!(s.step(Signal::Exited { code: 143 }), Command::Spawn);
    assert_eq!(s.phase, Phase::Starting);
    s.step(Signal::Spawned { now: 1100 });
    assert_eq!(s.phase, Phase::Running);
    assert_eq!(s.readiness, Readiness::Waiting);
    assert_eq!(s.stop_sent_at, None);
}

#[test]
fn file_changes_are_debounced() {
    let mut s = running(policy(true, None));
    s.step(Signal::FileChanged { now: 1000 });
    s.step(Signal::Exited { code: 0 });
    s.step(Signal::Spawned { now: 1050 });
    assert_eq!(s.step(Signal::FileChanged { now: 1199 }), Command::Nothing);
    assert_eq!(s.phase, Phase::Running);
    assert_eq!(s.restarts, 1);
    assert_eq!(s.step(Signal::FileChanged { now: 1200 }), Command::Terminate);
    assert_eq!(s.restarts, 2);
    assert_eq!(s.last_restart_at, Some(1200));
}

#[test]
fn file_change_respawns_a_failed_task() {
    let mut s = running(policy(true, None));
    s.step(Signal::Exited { code: 1 });
    assert_eq!(s.phase, Phase::Failed(Failure::Exit(1)));
    assert_eq!(s.step(Signal::FileChanged { now: 400 }), Command::Spawn);
    assert_eq!(s.phase, Phase::Starting);
    assert_eq!(s.restarts, 1);
}

#[test]
fn file_change_without_restart_policy_is_ignored() {
    let mut s = running(policy(false, None));
    let before = s;
    assert_eq!(s.step(Signal::FileChanged { now: 1000 }), Command::Nothing);
    assert_eq!(s, before);
}

#[test]
fn slow_child_is_killed_after_the_grace_period() {
    let mut s = running(policy(true, None));
    s.step(Signal::FileChanged { now: 1000 });
    assert_eq!(s.step(Signal::Tick { now: 1499 }), Command::Nothing);
    assert_eq!(s.step(Signal::Tick { now: 1500 }), Command::Kill);
    assert!(s.kill_sent);
    assert_eq!(s.step(Signal::Tick { now: 1600 }), Command::Nothing);
    assert_eq!(s.phase, Phase::Restarting);
    assert_eq!(s.step(Signal::Exited { code: 137 }), Command::Spawn);
}

#[test]
fn shutdown_stops_for_good() {
    let mut s = running(policy(true, Some(80)));
    assert_eq!(s.step(Signal::Shutdown { now: 700 }), Command::Terminate);
    assert_eq!(s.phase, Phase::Stopped);
    assert_eq!(s.step(Signal::FileChanged { now: 5000 }), Command::Nothing);
    assert_eq!(s.step(Signal::Start), Command::Nothing);
    assert_eq!(s.step(Signal::Tick { now: 1200 }), Command::Kill);
    assert_eq!(s.step(Signal::Exited { code: 0 }), Command::Nothing);
    assert_eq!(s.phase, Phase::Stopped);

    let mut pending = Supervisor::new(policy(false, None));
    assert_eq!(pending.step(Signal::Shutdown { now: 1 }), Command::Nothing);
    assert_eq!(pending.phase, Phase::Stopped);

    let mut done = running(policy(false, None));
    done.step(Signal::Exited { code: 0 });
    assert_eq!(done.step(Signal::Shutdown { now: 1 }), Command::Nothing);
    assert_eq!(done.phase, Phase::Succeeded);
}

#[test]
fn child_that_appears_after_shutdown_is_terminated() {
    let mut s = Supervisor::new(policy(false, None));
    s.step(Signal::Start);
    assert_eq!(s.step(Signal::Shutdown { now: 10 }), Command::Nothing);
    assert_eq!(s.step(Signal::Spawned { now: 20 }), Command::Terminate);
    assert_eq!(s.phase, Phase::Stopped);
    assert_eq!(s.stop_sent_at, Some(20));
}

#[test]
fn elapsed_time_never_goes_negative() {
    assert_eq!(since(10, 4), 6);
    assert_eq!(since(4, 10), 0);
    assert_eq!(since(7, 7), 0);
}

#[test]
fn split_command_on_white_space() {
    assert_eq!(split_command("yarn dev"), vec!["yarn", "dev"]);
    assert_eq!(split_command("  cargo   test --  --nocapture \t"), vec![
        "cargo",
        "test",
        "--",
        "--nocapture"
    ]);
    assert_eq!(split_command("single"), vec!["single"]);
    assert!(split_command("").is_empty());
    assert!(split_command(" \t\n ").is_empty());
    assert_eq!(split_command("a\u{00A0}b\u{3000}c\u{2003}d"), vec!["a", "b", "c", "d"]);
    assert_eq!(split_command("héllo wörld"), vec!["héllo", "wörld"]);
    let text = "x \n y\r\nz\u{0B}w\u{0C}v\u{85}u";
    let expected: Vec<&str> = text.split_whitespace().collect();
    assert_eq!(split_command(text), expected);
}

#[test]
fn white_space_is_what_the_standard_library_says() {
    for u in 0u32..0x3100 {
        if let Some(c) = char::from_u32(u) {
            assert_eq!(space(c), c.is_whitespace(), "at {:x}", u);
        }
    }
}

#[test]
fn launch_plan_is_program_and_arguments() {
    let l = plan_launch(&task("yarn run build --watch")).unwrap();
    assert_eq!(l.program, "yarn");
    assert_eq!(l.args, vec!["run", "build", "--watch"]);
    let l = plan_launch(&task("make")).unwrap();
    assert_eq!(l.program, "make");
    assert!(l.args.is_empty());
    assert_eq!(plan_launch(&task("")).unwrap_err(), LaunchError::EmptyCommand);
    assert_eq!(plan_launch(&task("   ")).unwrap_err(), LaunchError::EmptyCommand);
}

#[test]
fn policy_follows_the_declaration() {
    let none = ParserSet { rules: vec![] };
    let mut t = task("serve");
    let p = policy_for(&t, &none, 1, 2, 3);
    assert_eq!(p, Policy {
        restart_on_change: false,
        port: None,
        ready_action: false,
        ready_timeout_ms: 1,
        debounce_ms: 2,
        grace_ms: 3,
    });
    t.auto_restart = Some(true);
    assert!(!policy_for(&t, &none, 1, 2, 3).restart_on_change);
    t.watch_files = Some(vec![]);
    assert!(!policy_for(&t, &none, 1, 2, 3).restart_on_change);
    t.watch_files = Some(vec!["src/**".to_string()]);
    assert!(policy_for(&t, &none, 1, 2, 3).restart_on_change);
    t.auto_restart = Some(false);
    assert!(!policy_for(&t, &none, 1, 2, 3).restart_on_change);
    t.port_check = Some(3000);
    assert_eq!(policy_for(&t, &none, 1, 2, 3).port, Some(3000));

    let with_ready = ParserSet {
        rules: vec![
            Rule { regex: "a".to_string(), level: Level::Info, extract: None, action: None },
            Rule {
                regex: "b".to_string(),
                level: Level::Info,
                extract: None,
                action: Some(Action::Ready),
            },
        ],
    };
    assert!(policy_for(&t, &with_ready, 1, 2, 3).ready_action);
    let with_unknown = ParserSet {
        rules: vec![Rule {
            regex: "b".to_string(),
            level: Level::Info,
            extract: None,
            action: Some(Action::Unknown),
        }],
    };
    assert!(!policy_for(&t, &with_unknown, 1, 2, 3).ready_action);
}
