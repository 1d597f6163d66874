use vstd::prelude::*;

verus! {

/// Mathematical model of a task: every field as a plain spec value.
pub ghost struct TaskView {
    pub description: Option<Seq<char>>,
    pub commands: Seq<Seq<char>>,
    pub dependencies: Seq<Seq<char>>,
    pub env: Seq<(Seq<char>, Seq<char>)>,
    pub parallel: bool,
    pub sequential: bool,
    pub working_dir: Option<Seq<char>>,
    pub timeout: Option<u64>,
    pub continue_on_error: bool,
    pub hidden: bool,
}

/// A named unit of work: an ordered list of shell commands plus its
/// scheduling and execution policy. The name is not stored here; tasks are
/// keyed externally by the configuration.
#[derive(Debug, Clone)]
pub struct Task {
    /// Task description
    pub description: Option<String>,
    /// Commands to execute
    pub commands: Vec<String>,
    /// Task dependencies (other task names)
    pub dependencies: Vec<String>,
    /// Environment variables of the task, as ordered name-value pairs
    pub env: Vec<(String, String)>,
    /// Whether to run commands in parallel
    pub parallel: bool,
    /// Whether to run commands sequentially
    pub sequential: bool,
    /// Working directory for task execution
    pub working_dir: Option<String>,
    /// Timeout in seconds (None = no timeout)
    pub timeout: Option<u64>,
    /// Whether to continue on error
    pub continue_on_error: bool,
    /// Task is hidden from list (for internal tasks)
    pub hidden: bool,
}

impl View for Task {
    type V = TaskView;

    open spec fn view(&self) -> TaskView {
        TaskView {
            description: match self.description {
                Some(d) => Some(d@),
                None => None,
            },
            commands: self.commands.deep_view(),
            dependencies: self.dependencies.deep_view(),
            env: self.env.deep_view(),
            parallel: self.parallel,
            sequential: self.sequential,
            working_dir: match self.working_dir {
                Some(d) => Some(d@),
                None => None,
            },
            timeout: self.timeout,
            continue_on_error: self.continue_on_error,
            hidden: self.hidden,
        }
    }
}

/// A task is well formed when it has at least one command or at least one
/// dependency, and does not ask for parallel and sequential at once.
pub open spec fn valid_task(t: TaskView) -> bool {
    &&& t.commands.len() > 0 || t.dependencies.len() > 0
    &&& !(t.parallel && t.sequential)
}

/// How the commands of one task are run.
#[derive(Debug, Clone, Copy, PartialEq, Eq, Structural)]
pub enum ExecutionMode {
    /// Automatically determine based on task configuration
    Auto,
    /// Run commands in parallel
    Parallel,
    /// Run commands sequentially
    Sequential,
}

/// The execution mode a task's flags select.
pub open spec fn mode_of(t: TaskView) -> ExecutionMode {
    if t.parallel {
        ExecutionMode::Parallel
    } else if t.sequential {
        ExecutionMode::Sequential
    } else {
        ExecutionMode::Auto
    }
}

impl Task {
    pub fn new(commands: Vec<String>) -> (t: Task)
        ensures
            t@ == (TaskView {
                description: None,
                commands: commands.deep_view(),
                dependencies: Seq::<Seq<char>>::empty(),
                env: Seq::<(Seq<char>, Seq<char>)>::empty(),
                parallel: false,
                sequential: false,
                working_dir: None,
                timeout: None,
                continue_on_error: false,
                hidden: false,
            }),
    {
        let t = Task {
            description: None,
            commands,
            dependencies: Vec::new(),
            env: Vec::new(),
            parallel: false,
            sequential: false,
            working_dir: None,
            timeout: None,
            continue_on_error: false,
            hidden: false,
        };
        proof {
            assert(t.dependencies.deep_view() =~= Seq::<Seq<char>>::empty());
            assert(t.env.deep_view() =~= Seq::<(Seq<char>, Seq<char>)>::empty());
        }
        t
    }

    pub fn with_description(self, description: String) -> (t: Task)
        ensures
            t@ == (TaskView { description: Some(description@), ..self@ }),
    {
        let mut t = self;
        t.description = Some(description);
        t
    }

    pub fn with_dependencies(self, dependencies: Vec<String>) -> (t: Task)
        ensures
            t@ == (TaskView { dependencies: dependencies.deep_view(), ..self@ }),
    {
        let mut t = self;
        t.dependencies = dependencies;
        t
    }

    pub fn with_env(self, env: Vec<(String, String)>) -> (t: Task)
        ensures
            t@ == (TaskView { env: env.deep_view(), ..self@ }),
    {
        let mut t = self;
        t.env = env;
        t
    }

    pub fn parallel(self) -> (t: Task)
        ensures
            t@ == (TaskView { parallel: true, sequential: false, ..self@ }),
    {
        let mut t = self;
        t.parallel = true;
        t.sequential = false;
        t
    }

    pub fn sequential(self) -> (t: Task)
        ensures
            t@ == (TaskView { sequential: true, parallel: false, ..self@ }),
    {
        let mut t = self;
        t.sequential = true;
        t.parallel = false;
        t
    }

    pub fn with_timeout(self, timeout: u64) -> (t: Task)
        ensures
            t@ == (TaskView { timeout: Some(timeout), ..self@ }),
    {
        let mut t = self;
        t.timeout = Some(timeout);
        t
    }

    pub fn continue_on_error(self) -> (t: Task)
        ensures
            t@ == (TaskView { continue_on_error: true, ..self@ }),
    {
        let mut t = self;
        t.continue_on_error = true;
        t
    }

    pub fn hidden(self) -> (t: Task)
        ensures
            t@ == (TaskView { hidden: true, ..self@ }),
    {
        let mut t = self;
        t.hidden = true;
        t
    }

    /// The execution mode the flags of the task select.
    pub fn execution_mode(&self) -> (m: ExecutionMode)
        ensures
            m == mode_of(self@),
    {
        if self.parallel {
            ExecutionMode::Parallel
        } else if self.sequential {
            ExecutionMode::Sequential
        } else {
            ExecutionMode::Auto
        }
    }

    /// Validate task shape: a task with no commands must have dependencies
    /// (an orchestrator task), and the two concurrency hints are mutually
    /// exclusive.
    pub fn validate(&self, name: &str) -> (r: Result<(), String>)
        ensures
            r is Ok <==> valid_task(self@),
            self@.commands.len() == 0 && self@.dependencies.len() == 0 ==> (r matches Err(m)
                && m@ == "Task '"@ + name@ + "' has no commands and no dependencies"@),
            (self@.commands.len() > 0 || self@.dependencies.len() > 0) && self@.parallel
                && self@.sequential ==> (r matches Err(m) && m@ == "Task '"@ + name@
                + "' cannot be both parallel and sequential"@),
    {
        if self.commands.len() == 0 && self.dependencies.len() == 0 {
            let m = String::from_str("Task '").concat(name).concat(
                "' has no commands and no dependencies",
            );
            return Err(m);
        }
        if self.parallel && self.sequential {
            let m = String::from_str("Task '").concat(name).concat(
                "' cannot be both parallel and sequential",
            );
            return Err(m);
        }
        Ok(())
    }
}

} // verus!
