use vstd::prelude::*;

verus! {

/// Errors reported by the task runner: configuration problems, graph defects
/// found during dependency resolution, and execution failures.
#[derive(Debug, Clone)]
pub enum TaskRunnerError {
    ConfigNotFound,
    ConfigParseError(String),
    TaskNotFound(String),
    CircularDependency(String),
    TaskExecutionFailed(String),
    NoTasksSpecified,
    DependencyNotFound(String, String),
}

} // verus!
