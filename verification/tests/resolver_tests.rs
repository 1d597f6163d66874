use task_runner::config::Config;
use task_runner::error::TaskRunnerError;
use task_runner::task::Task;

fn config_with(tasks: Vec<(&str, Task)>) -> Config {
    Config {
        env: Vec::new(),
        tasks: tasks.into_iter().map(|(n, t)| (n.to_string(), t)).collect(),
        default_timeout: None,
        default_working_dir: None,
    }
}

#[test]
fn order_places_dependency_first() {
    let config = config_with(vec![
        ("A", Task::new(vec!["echo a".to_string()])),
        (
            "B",
            Task::new(vec!["echo b".to_string()]).with_dependencies(vec!["A".to_string()]),
        ),
    ]);
    let order = config.get_execution_order(&["B".to_string()]).unwrap();
    assert_eq!(order, vec!["A".to_string(), "B".to_string()]);
}

#[test]
fn order_is_idempotent() {
    let config = config_with(vec![
        ("A", Task::new(vec!["echo a".to_string()])),
        (
            "B",
            Task::new(vec!["echo b".to_string()]).with_dependencies(vec!["A".to_string()]),
        ),
        (
            "C",
            Task::new(vec!["echo c".to_string()])
                .with_dependencies(vec!["B".to_string(), "A".to_string()]),
        ),
    ]);
    let request = vec!["C".to_string(), "B".to_string()];
    let first = config.get_execution_order(&request).unwrap();
    let second = config.get_execution_order(&request).unwrap();
    assert_eq!(first, second);
    assert_eq!(first, vec!["A".to_string(), "B".to_string(), "C".to_string()]);
}

#[test]
fn duplicate_requests_are_placed_once() {
    let config = config_with(vec![("A", Task::new(vec!["echo a".to_string()]))]);
    let order = config
        .get_execution_order(&["A".to_string(), "A".to_string()])
        .unwrap();
    assert_eq!(order, vec!["A".to_string()]);
}

#[test]
fn cycle_is_reported() {
    let config = config_with(vec![
        (
            "A",
            Task::new(vec!["echo a".to_string()]).with_dependencies(vec!["B".to_string()]),
        ),
        (
            "B",
            Task::new(vec!["echo b".to_string()]).with_dependencies(vec!["A".to_string()]),
        ),
    ]);
    let err = config.get_execution_order(&["A".to_string()]).unwrap_err();
    assert!(matches!(err, TaskRunnerError::CircularDependency(_)));
    let err = config.validate().unwrap_err();
    assert!(matches!(err, TaskRunnerError::CircularDependency(_)));
}

#[test]
fn self_cycle_is_reported() {
    let config = config_with(vec![(
        "A",
        Task::new(vec!["echo a".to_string()]).with_dependencies(vec!["A".to_string()]),
    )]);
    let err = config.validate().unwrap_err();
    assert!(matches!(err, TaskRunnerError::CircularDependency(_)));
}

#[test]
fn missing_dependency_fails_validation() {
    let config = config_with(vec![(
        "A",
        Task::new(vec!["echo a".to_string()]).with_dependencies(vec!["X".to_string()]),
    )]);
    match config.validate().unwrap_err() {
        TaskRunnerError::DependencyNotFound(dep, owner) => {
            assert_eq!(dep, "X");
            assert_eq!(owner, "A");
        }
        other => panic!("unexpected error: {:?}", other),
    }
    // during order construction the dangling name itself is reported
    match config.get_execution_order(&["A".to_string()]).unwrap_err() {
        TaskRunnerError::TaskNotFound(name) => assert_eq!(name, "X"),
        other => panic!("unexpected error: {:?}", other),
    }
}

#[test]
fn unknown_requested_task_fails() {
    let config = config_with(vec![("A", Task::new(vec!["echo a".to_string()]))]);
    match config.get_execution_order(&["nope".to_string()]).unwrap_err() {
        TaskRunnerError::TaskNotFound(name) => assert_eq!(name, "nope"),
        other => panic!("unexpected error: {:?}", other),
    }
}

#[test]
fn empty_request_gives_empty_order() {
    let config = config_with(vec![("A", Task::new(vec!["echo a".to_string()]))]);
    let order = config.get_execution_order(&[]).unwrap();
    assert!(order.is_empty());
}

#[test]
fn diamond_graph_orders_each_task_once() {
    let config = config_with(vec![
        ("base", Task::new(vec!["echo base".to_string()])),
        (
            "left",
            Task::new(vec!["echo l".to_string()]).with_dependencies(vec!["base".to_string()]),
        ),
        (
            "right",
            Task::new(vec!["echo r".to_string()]).with_dependencies(vec!["base".to_string()]),
        ),
        (
            "top",
            Task::new(vec!["echo t".to_string()])
                .with_dependencies(vec!["left".to_string(), "right".to_string()]),
        ),
    ]);
    let order = config.get_execution_order(&["top".to_string()]).unwrap();
    assert_eq!(
        order,
        vec![
            "base".to_string(),
            "left".to_string(),
            "right".to_string(),
            "top".to_string()
        ]
    );
}

#[test]
fn validate_rejects_malformed_task() {
    let config = config_with(vec![("empty", Task::new(vec![]))]);
    assert!(matches!(
        config.validate().unwrap_err(),
        TaskRunnerError::ConfigParseError(_)
    ));
}

#[test]
fn validate_accepts_orchestrator_task() {
    let config = config_with(vec![
        ("A", Task::new(vec!["echo a".to_string()])),
        (
            "all",
            Task::new(vec![]).with_dependencies(vec!["A".to_string()]),
        ),
    ]);
    assert!(config.validate().is_ok());
    let order = config.get_execution_order(&["all".to_string()]).unwrap();
    assert_eq!(order, vec!["A".to_string(), "all".to_string()]);
}

#[test]
fn get_task_and_visible_tasks() {
    let config = config_with(vec![
        ("A", Task::new(vec!["echo a".to_string()])),
        ("B", Task::new(vec!["echo b".to_string()]).hidden()),
    ]);
    assert!(config.get_task("A").is_some());
    assert_eq!(
        config.get_task("A").unwrap().commands,
        vec!["echo a".to_string()]
    );
    assert!(config.get_task("missing").is_none());
    assert_eq!(config.get_visible_tasks(), vec!["A".to_string()]);
}
