use crate::config::Config;
use crate::error::TaskRunnerError;
use crate::utils::expand_env_vars;
use crate::utils::decimal_digits;
use crate::utils::expand_spec;
use crate::utils::u64_to_string;
use vstd::prelude::*;
use vstd::string::StringExecFns;

verus! {

/// Whether the pair list binds the key.
pub open spec fn has_key(s: Seq<(Seq<char>, Seq<char>)>, k: Seq<char>) -> bool {
    exists|i: int| 0 <= i < s.len() && (#[trigger] s[i]).0 == k
}

/// The base pairs whose keys the overlay does not bind, in base order.
pub open spec fn keep_unshadowed(
    base: Seq<(Seq<char>, Seq<char>)>,
    overlay: Seq<(Seq<char>, Seq<char>)>,
) -> Seq<(Seq<char>, Seq<char>)>
    decreases base.len(),
{
    if base.len() == 0 {
        Seq::empty()
    } else {
        keep_unshadowed(base.drop_last(), overlay) + (if has_key(overlay, base.last().0) {
            Seq::<(Seq<char>, Seq<char>)>::empty()
        } else {
            seq![base.last()]
        })
    }
}

/// Environment merge with the overlay winning on key collision: the base
/// pairs the overlay does not shadow, then the overlay pairs, so walking the
/// result front to back meets each key's effective binding first.
pub open spec fn merged_env(
    base: Seq<(Seq<char>, Seq<char>)>,
    overlay: Seq<(Seq<char>, Seq<char>)>,
) -> Seq<(Seq<char>, Seq<char>)> {
    keep_unshadowed(base, overlay) + overlay
}

fn env_has_key(env: &Vec<(String, String)>, key: &String) -> (r: bool)
    ensures
        r == has_key(env.deep_view(), key@),
{
    let mut i: usize = 0;
    while i < env.len()
        invariant
            i <= env.len(),
            forall|j: int| 0 <= j < i ==> (#[trigger] env.deep_view()[j]).0 != key@,
        decreases env.len() - i,
    {
        if env[i].0.eq(key) {
            assert(env.deep_view()[i as int].0 == key@);
            return true;
        }
        i += 1;
    }
    false
}

/// Merge two environments; on a key bound by both, the overlay's value wins.
#[verifier::loop_isolation(false)]
pub fn merge_env(base: &Vec<(String, String)>, overlay: &Vec<(String, String)>) -> (r: Vec<
    (String, String),
>)
    ensures
        r.deep_view() == merged_env(base.deep_view(), overlay.deep_view()),
{
    let ghost b = base.deep_view();
    let ghost o = overlay.deep_view();
    let mut out: Vec<(String, String)> = Vec::new();
    proof {
        assert(out.deep_view() =~= keep_unshadowed(b.take(0), o));
        assert(b.take(0) =~= Seq::<(Seq<char>, Seq<char>)>::empty());
    }
    let mut i: usize = 0;
    while i < base.len()
        invariant
            i <= base.len(),
            out.deep_view() =~= keep_unshadowed(b.take(i as int), o),
        decreases base.len() - i,
    {
        proof {
            assert(b.take(i + 1 as int).drop_last() =~= b.take(i as int));
            assert(b.take(i + 1 as int).last() == b[i as int]);
        }
        if !env_has_key(overlay, &base[i].0) {
            out.push((base[i].0.clone(), base[i].1.clone()));
        }
        i += 1;
    }
    proof {
        assert(b.take(b.len() as int) =~= b);
    }
    let mut j: usize = 0;
    while j < overlay.len()
        invariant
            j <= overlay.len(),
            out.deep_view() =~= keep_unshadowed(b, o) + o.take(j as int),
        decreases overlay.len() - j,
    {
        out.push((overlay[j].0.clone(), overlay[j].1.clone()));
        proof {
            assert(o[j as int] == (o[j as int].0, o[j as int].1));
            assert(o.take(j + 1 as int) =~= o.take(j as int).push(o[j as int]));
            assert(out.deep_view() =~= (keep_unshadowed(b, o) + o.take(j as int)).push(
                o[j as int],
            ));
            assert((keep_unshadowed(b, o) + o.take(j as int)).push(o[j as int])
                =~= keep_unshadowed(b, o) + o.take(j as int).push(o[j as int]));
        }
        j += 1;
    }
    proof {
        assert(o.take(o.len() as int) =~= o);
    }
    out
}

/// Everything one task execution needs, resolved up front: the commands with
/// environment variables substituted, the merged environment, the resolved
/// and substituted working directory, the effective timeout, and the task's
/// continue-on-error flag.
#[derive(Debug)]
pub struct TaskPlan {
    pub commands: Vec<String>,
    pub env: Vec<(String, String)>,
    pub working_dir: Option<String>,
    pub timeout: Option<u64>,
    pub continue_on_error: bool,
}

/// The merged environment of one task run: ambient variables, overlaid by
/// the configuration's globals, overlaid by the task's own.
pub open spec fn plan_env(
    ambient: Seq<(Seq<char>, Seq<char>)>,
    config_env: Seq<(Seq<char>, Seq<char>)>,
    task_env: Seq<(Seq<char>, Seq<char>)>,
) -> Seq<(Seq<char>, Seq<char>)> {
    merged_env(merged_env(ambient, config_env), task_env)
}

/// Prepare one task for execution against a configuration and the ambient
/// environment (handed in by the caller; the library reads no process state).
/// Fails exactly when the task is not in the graph.
#[verifier::loop_isolation(false)]
pub fn prepare_task(config: &Config, name: &str, ambient_env: &Vec<(String, String)>) -> (r: Result<
    TaskPlan,
    TaskRunnerError,
>)
    ensures
        match r {
            Ok(plan) => {
                let t = config.graph()[name@];
                let env = plan_env(ambient_env.deep_view(), config.env.deep_view(), t.env);
                &&& config.graph().dom().contains(name@)
                &&& plan.env.deep_view() == env
                &&& plan.commands.deep_view().len() == t.commands.len()
                &&& forall|i: int|
                    0 <= i < t.commands.len() ==> plan.commands.deep_view()[i] == expand_spec(
                        #[trigger] t.commands[i],
                        env,
                    )
                &&& (plan.working_dir is Some) == (t.working_dir is Some
                    || config.default_working_dir is Some)
                &&& (plan.working_dir matches Some(d) ==> d@ == expand_spec(
                    if t.working_dir is Some {
                        t.working_dir->0
                    } else {
                        (config.default_working_dir->0)@
                    },
                    env,
                ))
                &&& plan.timeout == (if t.timeout is Some {
                    t.timeout
                } else {
                    config.default_timeout
                })
                &&& plan.continue_on_error == t.continue_on_error
            },
            Err(e) => !config.graph().dom().contains(name@) && (e matches
                TaskRunnerError::TaskNotFound(s) && s@ == name@),
        },
{
    let task = match config.get_task(name) {
        Some(t) => t,
        None => {
            return Err(TaskRunnerError::TaskNotFound(name.to_owned()));
        },
    };
    let env = merge_env(&merge_env(ambient_env, &config.env), &task.env);
    let working_dir: Option<String> = match &task.working_dir {
        Some(d) => Some(expand_env_vars(d.as_str(), &env)),
        None => match &config.default_working_dir {
            Some(d) => Some(expand_env_vars(d.as_str(), &env)),
            None => None,
        },
    };
    let timeout: Option<u64> = match task.timeout {
        Some(t) => Some(t),
        None => config.default_timeout,
    };
    let mut commands: Vec<String> = Vec::new();
    let ghost t = config.graph()[name@];
    let ghost env_v = env.deep_view();
    proof {
        assert(commands.deep_view() =~= Seq::<Seq<char>>::empty());
    }
    let mut i: usize = 0;
    while i < task.commands.len()
        invariant
            i <= task.commands.len(),
            commands.deep_view().len() == i,
            forall|k: int|
                0 <= k < i ==> commands.deep_view()[k] == expand_spec(
                    #[trigger] t.commands[k],
                    env_v,
                ),
        decreases task.commands.len() - i,
    {
        commands.push(expand_env_vars(task.commands[i].as_str(), &env));
        i += 1;
    }
    Ok(
        TaskPlan {
            commands,
            env,
            working_dir,
            timeout,
            continue_on_error: task.continue_on_error,
        },
    )
}

/// The running state of one task's command loop.
pub struct CommandRun {
    /// How many commands the task has
    pub total: usize,
    /// Whether a failed command aborts the remaining ones
    pub continue_on_error: bool,
    /// Outcomes of the commands attempted so far, in order
    pub results: Vec<bool>,
}

/// The next command to attempt: the first one not yet run, unless a command
/// failed and the task does not continue on error.
pub open spec fn next_command_spec(total: int, continue_on_error: bool, results: Seq<bool>) -> Option<
    int,
> {
    if results.len() < total && (results.len() == 0 || results.last() || continue_on_error) {
        Some(results.len() as int)
    } else {
        None
    }
}

/// A task succeeded when every command was attempted and every one of them
/// succeeded; a task with no commands is a zero-outcome no-op success.
pub open spec fn task_success_spec(total: int, results: Seq<bool>) -> bool {
    results.len() == total && forall|i: int| 0 <= i < results.len() ==> results[i]
}

impl CommandRun {
    pub fn new(total: usize, continue_on_error: bool) -> (r: CommandRun)
        ensures
            r.total == total,
            r.continue_on_error == continue_on_error,
            r.results@ == Seq::<bool>::empty(),
    {
        let results: Vec<bool> = Vec::new();
        proof {
            assert(results@ =~= Seq::<bool>::empty());
        }
        CommandRun { total, continue_on_error, results }
    }

    /// Which command to run next, if any.
    pub fn next_command(&self) -> (r: Option<usize>)
        ensures
            r matches Some(i) <==> next_command_spec(
                self.total as int,
                self.continue_on_error,
                self.results@,
            ) is Some,
            r matches Some(i) ==> i as int == next_command_spec(
                self.total as int,
                self.continue_on_error,
                self.results@,
            )->0,
    {
        if self.results.len() < self.total && (self.results.len() == 0
            || self.results[self.results.len() - 1] || self.continue_on_error) {
            Some(self.results.len())
        } else {
            None
        }
    }

    /// Record the outcome of the command just attempted.
    pub fn record(&mut self, ok: bool)
        ensures
            final(self).total == old(self).total,
            final(self).continue_on_error == old(self).continue_on_error,
            final(self).results@ == old(self).results@.push(ok),
    {
        self.results.push(ok);
    }

    /// Whether the whole task succeeded.
    pub fn succeeded(&self) -> (r: bool)
        ensures
            r == task_success_spec(self.total as int, self.results@),
    {
        if self.results.len() != self.total {
            return false;
        }
        let mut i: usize = 0;
        while i < self.results.len()
            invariant
                i <= self.results@.len(),
                forall|j: int| 0 <= j < i ==> self.results@[j],
            decreases self.results.len() - i,
        {
            if !self.results[i] {
                return false;
            }
            i += 1;
        }
        true
    }
}

/// One observation of a running child process.
#[derive(Debug, Clone, Copy, PartialEq, Eq, Structural)]
pub enum PollEvent {
    /// The process exited; the flag tells whether its status was success
    Exited(bool),
    /// The process is still running
    Running,
    /// Asking for the process status failed
    WaitFailed,
}

/// What the command runner must do after an observation.
#[derive(Debug, Clone, Copy, PartialEq, Eq, Structural)]
pub enum PollAction {
    /// The command is done; the flag tells whether it succeeded
    Complete(bool),
    /// The timeout expired: kill the process, await its termination, and
    /// record a timeout failure
    Kill,
    /// Keep waiting: sleep for the poll interval and observe again
    KeepWaiting,
    /// Give up on this command with a failure
    Abort,
}

/// The poll interval of timeout enforcement, in milliseconds.
pub const POLL_INTERVAL_MILLIS: u64 = 100;

/// The timeout bound in milliseconds, saturating at the integer limit.
pub open spec fn timeout_millis_spec(timeout_secs: u64) -> u64 {
    if timeout_secs <= u64::MAX / 1000 {
        (timeout_secs * 1000) as u64
    } else {
        u64::MAX
    }
}

pub fn timeout_millis(timeout_secs: u64) -> (r: u64)
    ensures
        r == timeout_millis_spec(timeout_secs),
{
    if timeout_secs <= u64::MAX / 1000 {
        timeout_secs * 1000
    } else {
        u64::MAX
    }
}

/// Decide one step of the timeout-bounded wait for a child process: exits
/// complete the command with their status; a process still running when the
/// elapsed time reaches the bound is killed; otherwise the runner sleeps and
/// polls again.
pub fn poll_decision(event: PollEvent, elapsed_millis: u64, timeout_secs: u64) -> (a: PollAction)
    ensures
        a == (match event {
            PollEvent::Exited(ok) => PollAction::Complete(ok),
            PollEvent::Running => if elapsed_millis >= timeout_millis_spec(timeout_secs) {
                PollAction::Kill
            } else {
                PollAction::KeepWaiting
            },
            PollEvent::WaitFailed => PollAction::Abort,
        }),
{
    match event {
        PollEvent::Exited(ok) => PollAction::Complete(ok),
        PollEvent::Running => {
            if elapsed_millis >= timeout_millis(timeout_secs) {
                PollAction::Kill
            } else {
                PollAction::KeepWaiting
            }
        },
        PollEvent::WaitFailed => PollAction::Abort,
    }
}

/// The names of the failed outcomes, in record order.
pub open spec fn failed_names(outcomes: Seq<(Seq<char>, bool)>) -> Seq<Seq<char>>
    decreases outcomes.len(),
{
    if outcomes.len() == 0 {
        Seq::empty()
    } else {
        failed_names(outcomes.drop_last()) + (if outcomes.last().1 {
            Seq::<Seq<char>>::empty()
        } else {
            seq![outcomes.last().0]
        })
    }
}

/// The failed task names of a run, in record order.
#[verifier::loop_isolation(false)]
pub fn failed_tasks(outcomes: &Vec<(String, bool)>) -> (r: Vec<String>)
    ensures
        r.deep_view() == failed_names(outcomes.deep_view()),
{
    let ghost o = outcomes.deep_view();
    let mut out: Vec<String> = Vec::new();
    proof {
        assert(out.deep_view() =~= failed_names(o.take(0)));
        assert(o.take(0) =~= Seq::<(Seq<char>, bool)>::empty());
    }
    let mut i: usize = 0;
    while i < outcomes.len()
        invariant
            i <= outcomes.len(),
            out.deep_view() =~= failed_names(o.take(i as int)),
        decreases outcomes.len() - i,
    {
        proof {
            assert(o.take(i + 1 as int).drop_last() =~= o.take(i as int));
            assert(o.take(i + 1 as int).last() == o[i as int]);
        }
        if !outcomes[i].1 {
            out.push(outcomes[i].0.clone());
        }
        i += 1;
    }
    proof {
        assert(o.take(o.len() as int) =~= o);
    }
    out
}

/// Names joined with a separator.
pub open spec fn join_spec(items: Seq<Seq<char>>, sep: Seq<char>) -> Seq<char>
    decreases items.len(),
{
    if items.len() == 0 {
        Seq::empty()
    } else if items.len() == 1 {
        items[0]
    } else {
        join_spec(items.drop_last(), sep) + sep + items.last()
    }
}

#[verifier::loop_isolation(false)]
fn join(items: &Vec<String>, sep: &str) -> (r: String)
    ensures
        r@ == join_spec(items.deep_view(), sep@),
{
    let ghost s = items.deep_view();
    let mut acc = String::new();
    if items.len() == 0 {
        proof {
            assert(acc@ =~= join_spec(s, sep@));
        }
        return acc;
    }
    acc = items[0].clone();
    let mut i: usize = 1;
    proof {
        assert(s.take(1)[0] == s[0]);
        assert(acc@ == join_spec(s.take(1), sep@));
    }
    while i < items.len()
        invariant
            1 <= i <= items.len(),
            acc@ == join_spec(s.take(i as int), sep@),
        decreases items.len() - i,
    {
        acc = acc.concat(sep).concat(items[i].as_str());
        proof {
            assert(s.take(i + 1 as int).drop_last() =~= s.take(i as int));
            assert(s.take(i + 1 as int).last() == s[i as int]);
        }
        i += 1;
    }
    proof {
        assert(s.take(s.len() as int) =~= s);
    }
    acc
}

/// The run-level failure detail: the count of failed tasks and their names.
pub open spec fn failure_detail(failed: Seq<Seq<char>>) -> Seq<char> {
    decimal_digits(failed.len()) + " tasks failed: "@ + join_spec(failed, ", "@)
}

/// Summarize a finished run: success when every task outcome is a success,
/// otherwise an execution failure carrying the count and the list of the
/// failed task names.
pub fn run_report(outcomes: &Vec<(String, bool)>) -> (r: Result<(), TaskRunnerError>)
    ensures
        r is Ok <==> failed_names(outcomes.deep_view()).len() == 0,
        r matches Err(e) ==> (e matches TaskRunnerError::TaskExecutionFailed(m) && m@
            == failure_detail(failed_names(outcomes.deep_view()))),
{
    let failed = failed_tasks(outcomes);
    if failed.len() == 0 {
        Ok(())
    } else {
        let count = u64_to_string(failed.len() as u64);
        let joined = join(&failed, ", ");
        let msg = count.concat(" tasks failed: ").concat(joined.as_str());
        Err(TaskRunnerError::TaskExecutionFailed(msg))
    }
}

/// Plan a whole run: resolve the execution order of the requested tasks; an
/// empty resulting order (an empty request) is refused, so a run never
/// silently does nothing.
pub fn plan_run(config: &Config, task_names: &[String]) -> (r: Result<
    Vec<String>,
    TaskRunnerError,
>)
    ensures
        match crate::resolve::resolve_spec(
            config.graph(),
            crate::resolve::visit_frames(crate::resolve::names_of(task_names@)),
            crate::resolve::init_state(),
            true,
        ) {
            Ok(o) => if o.len() == 0 {
                r matches Err(TaskRunnerError::NoTasksSpecified)
            } else {
                r matches Ok(v) && v.deep_view() == o
            },
            Err(crate::resolve::ResolveError::NotFound(n)) => r matches Err(
                TaskRunnerError::TaskNotFound(s),
            ) && s@ == n,
            Err(crate::resolve::ResolveError::Circular(n)) => r matches Err(
                TaskRunnerError::CircularDependency(s),
            ) && s@ == n,
        },
{
    let order = match config.get_execution_order(task_names) {
        Ok(o) => o,
        Err(e) => {
            return Err(e);
        },
    };
    if order.len() == 0 {
        return Err(TaskRunnerError::NoTasksSpecified);
    }
    Ok(order)
}

/// The run-level sequential schedule: which task of the order to launch next,
/// given the outcomes so far and the run-wide continue-on-error flag. In the
/// sequential and auto modes a failure without continue-on-error stops the
/// run; the skipped tasks get no outcome at all.
pub open spec fn next_task_spec(
    order: Seq<Seq<char>>,
    outcomes: Seq<(Seq<char>, bool)>,
    continue_on_error: bool,
) -> Option<int> {
    if outcomes.len() < order.len() && (outcomes.len() == 0 || outcomes.last().1
        || continue_on_error) {
        Some(outcomes.len() as int)
    } else {
        None
    }
}

/// The sequential run state: the resolved order, the run-wide flag, and the
/// outcomes recorded so far (one per launched task, in order).
pub struct RunState {
    pub order: Vec<String>,
    pub continue_on_error: bool,
    pub outcomes: Vec<(String, bool)>,
}

impl RunState {
    pub fn new(order: Vec<String>, continue_on_error: bool) -> (r: RunState)
        ensures
            r.order == order,
            r.continue_on_error == continue_on_error,
            r.outcomes.deep_view() == Seq::<(Seq<char>, bool)>::empty(),
    {
        let outcomes: Vec<(String, bool)> = Vec::new();
        proof {
            assert(outcomes.deep_view() =~= Seq::<(Seq<char>, bool)>::empty());
        }
        RunState { order, continue_on_error, outcomes }
    }

    /// The index of the task to launch next, if the run goes on.
    pub fn next_task(&self) -> (r: Option<usize>)
        ensures
            r matches Some(i) <==> next_task_spec(
                self.order.deep_view(),
                self.outcomes.deep_view(),
                self.continue_on_error,
            ) is Some,
            r matches Some(i) ==> i as int == next_task_spec(
                self.order.deep_view(),
                self.outcomes.deep_view(),
                self.continue_on_error,
            )->0 && i < self.order.len(),
    {
        if self.outcomes.len() < self.order.len() && (self.outcomes.len() == 0
            || self.outcomes[self.outcomes.len() - 1].1 || self.continue_on_error) {
            Some(self.outcomes.len())
        } else {
            None
        }
    }

    /// Record the outcome of the task just executed, under its own name.
    pub fn record(&mut self, name: String, ok: bool)
        ensures
            final(self).order == old(self).order,
            final(self).continue_on_error == old(self).continue_on_error,
            final(self).outcomes.deep_view() == old(self).outcomes.deep_view().push((name@, ok)),
    {
        self.outcomes.push((name, ok));
        proof {
            assert(self.outcomes.deep_view() =~= old(self).outcomes.deep_view().push((name@, ok)));
        }
    }

    /// Summarize the finished run.
    pub fn report(&self) -> (r: Result<(), TaskRunnerError>)
        ensures
            r is Ok <==> failed_names(self.outcomes.deep_view()).len() == 0,
            r matches Err(e) ==> (e matches TaskRunnerError::TaskExecutionFailed(m) && m@
                == failure_detail(failed_names(self.outcomes.deep_view()))),
    {
        run_report(&self.outcomes)
    }
}

} // verus!
