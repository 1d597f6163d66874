use task_runner::config::Config;
use task_runner::error::TaskRunnerError;
use task_runner::schedule::{
    failed_tasks, merge_env, plan_run, poll_decision, prepare_task, run_report, timeout_millis,
    CommandRun, PollAction, PollEvent, RunState,
};
use task_runner::task::Task;

fn pairs(items: &[(&str, &str)]) -> Vec<(String, String)> {
    items
        .iter()
        .map(|(k, v)| (k.to_string(), v.to_string()))
        .collect()
}

#[test]
fn merge_env_overlay_wins() {
    let merged = merge_env(
        &pairs(&[("A", "1"), ("B", "2")]),
        &pairs(&[("A", "9"), ("C", "3")]),
    );
    assert_eq!(merged, pairs(&[("B", "2"), ("A", "9"), ("C", "3")]));
}

#[test]
fn merge_env_empty_overlay_keeps_base() {
    let merged = merge_env(&pairs(&[("A", "1")]), &pairs(&[]));
    assert_eq!(merged, pairs(&[("A", "1")]));
}

#[test]
fn empty_run_is_refused() {
    let config = Config {
        env: Vec::new(),
        tasks: vec![("A".to_string(), Task::new(vec!["echo a".to_string()]))],
        default_timeout: None,
        default_working_dir: None,
    };
    let err = plan_run(&config, &[]).unwrap_err();
    assert!(matches!(err, TaskRunnerError::NoTasksSpecified));
}

#[test]
fn plan_run_returns_resolved_order() {
    let config = Config {
        env: Vec::new(),
        tasks: vec![
            ("A".to_string(), Task::new(vec!["echo a".to_string()])),
            (
                "B".to_string(),
                Task::new(vec!["echo b".to_string()]).with_dependencies(vec!["A".to_string()]),
            ),
        ],
        default_timeout: None,
        default_working_dir: None,
    };
    let order = plan_run(&config, &["B".to_string()]).unwrap();
    assert_eq!(order, vec!["A".to_string(), "B".to_string()]);
}

#[test]
fn prepare_task_resolves_env_timeout_and_dir() {
    let config = Config {
        env: pairs(&[("GLOBAL", "g"), ("SHARED", "config")]),
        tasks: vec![(
            "build".to_string(),
            Task::new(vec!["echo ${SHARED} $GLOBAL".to_string()])
                .with_env(pairs(&[("SHARED", "task")]))
                .with_timeout(7),
        )],
        default_timeout: Some(99),
        default_working_dir: Some("/tmp/${SHARED}".to_string()),
    };
    let plan = prepare_task(&config, "build", &pairs(&[("AMBIENT", "a")])).unwrap();
    // the task-level binding wins over the configuration's
    assert_eq!(plan.commands, vec!["echo task g".to_string()]);
    // the task-level timeout wins over the default
    assert_eq!(plan.timeout, Some(7));
    // the default working directory applies, with substitution
    assert_eq!(plan.working_dir, Some("/tmp/task".to_string()));
    assert!(!plan.continue_on_error);
    assert!(plan.env.contains(&("AMBIENT".to_string(), "a".to_string())));
    assert!(plan.env.contains(&("GLOBAL".to_string(), "g".to_string())));
    assert!(plan.env.contains(&("SHARED".to_string(), "task".to_string())));
    assert!(!plan.env.contains(&("SHARED".to_string(), "config".to_string())));
}

#[test]
fn prepare_task_default_timeout_applies() {
    let config = Config {
        env: Vec::new(),
        tasks: vec![("A".to_string(), Task::new(vec!["echo a".to_string()]))],
        default_timeout: Some(99),
        default_working_dir: None,
    };
    let plan = prepare_task(&config, "A", &Vec::new()).unwrap();
    assert_eq!(plan.timeout, Some(99));
    assert_eq!(plan.working_dir, None);
}

#[test]
fn prepare_task_unknown_name_fails() {
    let config = Config {
        env: Vec::new(),
        tasks: Vec::new(),
        default_timeout: None,
        default_working_dir: None,
    };
    match prepare_task(&config, "nope", &Vec::new()).unwrap_err() {
        TaskRunnerError::TaskNotFound(name) => assert_eq!(name, "nope"),
        other => panic!("unexpected error: {:?}", other),
    }
}

#[test]
fn command_loop_continue_on_error_attempts_all_but_fails() {
    // first command fails, continue_on_error keeps going; the task still
    // counts as failed
    let mut run = CommandRun::new(2, true);
    assert_eq!(run.next_command(), Some(0));
    run.record(false);
    assert_eq!(run.next_command(), Some(1));
    run.record(true);
    assert_eq!(run.next_command(), None);
    assert!(!run.succeeded());
}

#[test]
fn command_loop_stops_after_failure_without_continue() {
    let mut run = CommandRun::new(2, false);
    assert_eq!(run.next_command(), Some(0));
    run.record(false);
    assert_eq!(run.next_command(), None);
    assert!(!run.succeeded());
}

#[test]
fn command_loop_all_success() {
    let mut run = CommandRun::new(2, false);
    run.record(true);
    assert_eq!(run.next_command(), Some(1));
    run.record(true);
    assert_eq!(run.next_command(), None);
    assert!(run.succeeded());
}

#[test]
fn empty_command_list_is_noop_success() {
    let run = CommandRun::new(0, false);
    assert_eq!(run.next_command(), None);
    assert!(run.succeeded());
}

#[test]
fn poll_decision_kills_at_timeout() {
    assert_eq!(timeout_millis(1), 1000);
    assert_eq!(
        poll_decision(PollEvent::Running, 999, 1),
        PollAction::KeepWaiting
    );
    assert_eq!(poll_decision(PollEvent::Running, 1000, 1), PollAction::Kill);
    assert_eq!(poll_decision(PollEvent::Running, 5000, 1), PollAction::Kill);
    assert_eq!(
        poll_decision(PollEvent::Exited(true), 5000, 1),
        PollAction::Complete(true)
    );
    assert_eq!(
        poll_decision(PollEvent::Exited(false), 0, 1),
        PollAction::Complete(false)
    );
    assert_eq!(poll_decision(PollEvent::WaitFailed, 0, 1), PollAction::Abort);
}

#[test]
fn sequential_run_stops_on_failure() {
    let order = vec!["A".to_string(), "B".to_string()];
    let mut run = RunState::new(order, false);
    assert_eq!(run.next_task(), Some(0));
    run.record("A".to_string(), false);
    assert_eq!(run.next_task(), None);
    let err = run.report().unwrap_err();
    match err {
        TaskRunnerError::TaskExecutionFailed(msg) => {
            assert_eq!(msg, "1 tasks failed: A");
        }
        other => panic!("unexpected error: {:?}", other),
    }
}

#[test]
fn sequential_run_continues_when_asked() {
    let order = vec!["A".to_string(), "B".to_string()];
    let mut run = RunState::new(order, true);
    run.record("A".to_string(), false);
    assert_eq!(run.next_task(), Some(1));
    run.record("B".to_string(), true);
    assert_eq!(run.next_task(), None);
    assert!(run.report().is_err());
}

#[test]
fn run_report_collects_failures() {
    let outcomes = vec![
        ("A".to_string(), true),
        ("B".to_string(), false),
        ("C".to_string(), false),
    ];
    assert_eq!(failed_tasks(&outcomes), vec!["B".to_string(), "C".to_string()]);
    match run_report(&outcomes).unwrap_err() {
        TaskRunnerError::TaskExecutionFailed(msg) => {
            assert_eq!(msg, "2 tasks failed: B, C");
        }
        other => panic!("unexpected error: {:?}", other),
    }
    assert!(run_report(&vec![("A".to_string(), true)]).is_ok());
    assert!(run_report(&Vec::new()).is_ok());
}
