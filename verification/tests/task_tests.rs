use task_runner::task::{ExecutionMode, Task};

#[test]
fn test_task_new() {
    let commands = vec!["echo hello".to_string()];
    let task = Task::new(commands.clone());

    assert_eq!(task.commands, commands);
    assert_eq!(task.description, None);
    assert_eq!(task.dependencies.len(), 0);
    assert_eq!(task.env.len(), 0);
    assert!(!task.parallel);
    assert!(!task.sequential);
    assert_eq!(task.working_dir, None);
    assert_eq!(task.timeout, None);
    assert!(!task.continue_on_error);
    assert!(!task.hidden);
}

#[test]
fn test_task_builder_methods() {
    let task = Task::new(vec!["echo test".to_string()])
        .with_description("Test task".to_string())
        .with_dependencies(vec!["dep1".to_string(), "dep2".to_string()])
        .parallel()
        .with_timeout(30)
        .continue_on_error()
        .hidden();

    assert_eq!(task.description, Some("Test task".to_string()));
    assert_eq!(task.dependencies, vec!["dep1", "dep2"]);
    assert!(task.parallel);
    assert!(!task.sequential);
    assert_eq!(task.timeout, Some(30));
    assert!(task.continue_on_error);
    assert!(task.hidden);
}

#[test]
fn test_execution_mode() {
    let mut task = Task::new(vec!["echo test".to_string()]);

    // Default should be Auto
    assert_eq!(task.execution_mode(), ExecutionMode::Auto);

    // Test parallel
    task.parallel = true;
    assert_eq!(task.execution_mode(), ExecutionMode::Parallel);

    // Test sequential
    task.parallel = false;
    task.sequential = true;
    assert_eq!(task.execution_mode(), ExecutionMode::Sequential);
}

#[test]
fn test_task_validation() {
    // Valid task
    let task = Task::new(vec!["echo hello".to_string()]);
    assert!(task.validate("test").is_ok());

    // Task with no commands and no dependencies (invalid)
    let task = Task::new(vec![]);
    assert!(task.validate("test").is_err());

    // Task with no commands but has dependencies (orchestrator task - valid)
    let mut task = Task::new(vec![]);
    task.dependencies = vec!["dep1".to_string(), "dep2".to_string()];
    assert!(task.validate("test").is_ok());

    // Task with both parallel and sequential
    let mut task = Task::new(vec!["echo hello".to_string()]);
    task.parallel = true;
    task.sequential = true;
    assert!(task.validate("test").is_err());
}

#[test]
fn test_task_validation_messages() {
    let task = Task::new(vec![]);
    let err = task.validate("empty").unwrap_err();
    assert_eq!(err, "Task 'empty' has no commands and no dependencies");

    let mut task = Task::new(vec!["echo hello".to_string()]);
    task.parallel = true;
    task.sequential = true;
    let err = task.validate("both").unwrap_err();
    assert_eq!(err, "Task 'both' cannot be both parallel and sequential");
}

#[test]
fn test_with_env_builder() {
    let task = Task::new(vec!["echo $X".to_string()])
        .with_env(vec![("X".to_string(), "1".to_string())])
        .sequential();
    assert_eq!(task.env, vec![("X".to_string(), "1".to_string())]);
    assert!(task.sequential);
    assert!(!task.parallel);
}
