use crate::error::TaskRunnerError;
use crate::resolve::graph_of;
use crate::resolve::init_state;
use crate::resolve::lookup_task;
use crate::resolve::names_of;
use crate::resolve::resolve_frames;
use crate::resolve::resolve_spec;
use crate::resolve::visit_frames;
use crate::resolve::Frame;
use crate::resolve::ResolveError;
use crate::task::valid_task;
use crate::task::Task;
use crate::task::TaskView;
use vstd::prelude::*;

verus! {

/// The task names of the configuration's entry list, in entry order.
pub open spec fn keys_of(entries: Seq<(String, Task)>) -> Seq<Seq<char>> {
    entries.map_values(|p: (String, Task)| p.0@)
}

/// The names of the entries not marked hidden, in entry order.
pub open spec fn visible_names(entries: Seq<(String, Task)>) -> Seq<Seq<char>>
    decreases entries.len(),
{
    if entries.len() == 0 {
        Seq::empty()
    } else {
        visible_names(entries.drop_last()) + (if entries.last().1@.hidden {
            Seq::<Seq<char>>::empty()
        } else {
            seq![entries.last().0@]
        })
    }
}

/// Every declared dependency of every entry names a task of the graph.
pub open spec fn all_deps_present(entries: Seq<(String, Task)>) -> bool {
    forall|i: int, j: int|
        0 <= i < entries.len() && 0 <= j < entries[i].1@.dependencies.len()
            ==> graph_of(entries).dom().contains(#[trigger] entries[i].1@.dependencies[j])
}

/// Every entry of the list is a well-formed task.
pub open spec fn all_tasks_valid(entries: Seq<(String, Task)>) -> bool {
    forall|i: int| 0 <= i < entries.len() ==> valid_task(#[trigger] entries[i].1@)
}

/// A full run configuration: global environment, the task graph as a list of
/// name-task entries (earliest entry for a name wins), and run-wide defaults.
#[derive(Debug, Clone)]
pub struct Config {
    /// Global environment variables, as key-value pairs
    pub env: Vec<(String, String)>,
    /// Task definitions, keyed by task name
    pub tasks: Vec<(String, Task)>,
    /// Default timeout for all tasks (in seconds)
    pub default_timeout: Option<u64>,
    /// Default working directory
    pub default_working_dir: Option<String>,
}

impl Config {
    /// The dependency graph this configuration defines.
    pub open spec fn graph(self) -> Map<Seq<char>, TaskView> {
        graph_of(self.tasks@)
    }

    /// Get task by name.
    pub fn get_task(&self, name: &str) -> (r: Option<&Task>)
        ensures
            match r {
                Some(t) => self.graph().dom().contains(name@) && t@ == self.graph()[name@],
                None => !self.graph().dom().contains(name@),
            },
    {
        let owned = name.to_owned();
        lookup_task(&self.tasks, &owned)
    }

    /// Get all task names, excluding hidden ones, in declaration order.
    #[verifier::loop_isolation(false)]
    pub fn get_visible_tasks(&self) -> (r: Vec<String>)
        ensures
            r.deep_view() == visible_names(self.tasks@),
    {
        let mut out: Vec<String> = Vec::new();
        proof {
            assert(out.deep_view() =~= Seq::<Seq<char>>::empty());
            assert(self.tasks@.take(0) =~= Seq::<(String, Task)>::empty());
        }
        let mut i: usize = 0;
        while i < self.tasks.len()
            invariant
                i <= self.tasks.len(),
                out.deep_view() =~= visible_names(self.tasks@.take(i as int)),
            decreases self.tasks.len() - i,
        {
            proof {
                assert(self.tasks@.take(i + 1 as int).drop_last() =~= self.tasks@.take(i as int));
                assert(self.tasks@.take(i + 1 as int).last() == self.tasks@[i as int]);
            }
            if !self.tasks[i].1.hidden {
                out.push(self.tasks[i].0.clone());
            }
            i += 1;
        }
        proof {
            assert(self.tasks@.take(self.tasks@.len() as int) =~= self.tasks@);
        }
        out
    }

    /// Compute the execution order for the requested task names: each task
    /// preceded by its dependencies, depth first, duplicates placed once.
    /// The result is exactly what `resolve_spec` gives on this graph, so two
    /// calls with the same input return the same order.
    #[verifier::loop_isolation(false)]
    pub fn get_execution_order(&self, task_names: &[String]) -> (r: Result<
        Vec<String>,
        TaskRunnerError,
    >)
        ensures
            match resolve_spec(
                self.graph(),
                visit_frames(names_of(task_names@)),
                init_state(),
                true,
            ) {
                Ok(o) => r matches Ok(v) && v.deep_view() == o,
                Err(ResolveError::NotFound(n)) => r matches Err(TaskRunnerError::TaskNotFound(s))
                    && s@ == n,
                Err(ResolveError::Circular(n)) => r matches Err(
                    TaskRunnerError::CircularDependency(s),
                ) && s@ == n,
            },
    {
        let mut pend: Vec<Frame> = Vec::new();
        proof {
            assert(pend.deep_view() =~= visit_frames(names_of(task_names@.take(0))));
        }
        let mut i: usize = 0;
        while i < task_names.len()
            invariant
                i <= task_names.len(),
                pend.deep_view() =~= visit_frames(names_of(task_names@.take(i as int))),
            decreases task_names.len() - i,
        {
            let name: &String = &task_names[i];
            pend.push(Frame::Visit(name.clone()));
            proof {
                assert(pend.deep_view() =~= visit_frames(names_of(task_names@.take(i as int))).push(
                    crate::resolve::FrameView::Visit(task_names@[i as int]@),
                ));
                assert(names_of(task_names@.take(i + 1 as int)).drop_last() =~= names_of(
                    task_names@.take(i as int),
                ));
                assert(visit_frames(names_of(task_names@.take(i + 1 as int)))
                    =~= visit_frames(names_of(task_names@.take(i as int))).push(
                    crate::resolve::FrameView::Visit(task_names@[i as int]@),
                ));
            }
            i += 1;
        }
        proof {
            assert(task_names@.take(task_names@.len() as int) =~= task_names@);
        }
        resolve_frames(&self.tasks, pend, true)
    }

    /// Cycle pre-pass over the whole graph: traverse from every task name;
    /// dangling references are tolerated here (a separate check reports them).
    #[verifier::loop_isolation(false)]
    fn check_circular_dependencies(&self) -> (r: Result<(), TaskRunnerError>)
        ensures
            match resolve_spec(
                self.graph(),
                visit_frames(keys_of(self.tasks@)),
                init_state(),
                false,
            ) {
                Ok(o) => r is Ok,
                Err(ResolveError::NotFound(n)) => r matches Err(TaskRunnerError::TaskNotFound(s))
                    && s@ == n,
                Err(ResolveError::Circular(n)) => r matches Err(
                    TaskRunnerError::CircularDependency(s),
                ) && s@ == n,
            },
    {
        let mut pend: Vec<Frame> = Vec::new();
        proof {
            assert(pend.deep_view() =~= visit_frames(keys_of(self.tasks@.take(0))));
        }
        let mut i: usize = 0;
        while i < self.tasks.len()
            invariant
                i <= self.tasks.len(),
                pend.deep_view() =~= visit_frames(keys_of(self.tasks@.take(i as int))),
            decreases self.tasks.len() - i,
        {
            pend.push(Frame::Visit(self.tasks[i].0.clone()));
            proof {
                assert(pend.deep_view() =~= visit_frames(keys_of(self.tasks@.take(i as int))).push(
                    crate::resolve::FrameView::Visit(self.tasks@[i as int].0@),
                ));
                assert(keys_of(self.tasks@.take(i + 1 as int)).drop_last() =~= keys_of(
                    self.tasks@.take(i as int),
                ));
                assert(visit_frames(keys_of(self.tasks@.take(i + 1 as int))) =~= visit_frames(
                    keys_of(self.tasks@.take(i as int)),
                ).push(crate::resolve::FrameView::Visit(self.tasks@[i as int].0@)));
            }
            i += 1;
        }
        proof {
            assert(self.tasks@.take(self.tasks@.len() as int) =~= self.tasks@);
        }
        match resolve_frames(&self.tasks, pend, false) {
            Ok(_) => Ok(()),
            Err(e) => Err(e),
        }
    }

    /// Check that all declared dependencies exist in the graph.
    #[verifier::loop_isolation(false)]
    fn check_dependencies(&self) -> (r: Result<(), TaskRunnerError>)
        ensures
            r is Ok <==> all_deps_present(self.tasks@),
            r matches Err(e) ==> (e matches TaskRunnerError::DependencyNotFound(d, o)
                && !self.graph().dom().contains(d@) && exists|i: int|
                0 <= i < self.tasks@.len() && (#[trigger] self.tasks@[i]).0@ == o@
                    && self.tasks@[i].1@.dependencies.contains(d@)),
    {
        let mut i: usize = 0;
        while i < self.tasks.len()
            invariant
                i <= self.tasks.len(),
                forall|i2: int, j2: int|
                    0 <= i2 < i && 0 <= j2 < self.tasks@[i2].1@.dependencies.len()
                        ==> self.graph().dom().contains(
                        #[trigger] self.tasks@[i2].1@.dependencies[j2],
                    ),
            decreases self.tasks.len() - i,
        {
            let deps = &self.tasks[i].1.dependencies;
            let mut j: usize = 0;
            while j < deps.len()
                invariant
                    j <= deps.len(),
                    forall|j2: int|
                        0 <= j2 < j ==> self.graph().dom().contains(
                            #[trigger] self.tasks@[i as int].1@.dependencies[j2],
                        ),
                decreases deps.len() - j,
            {
                let dep: &String = &deps[j];
                match lookup_task(&self.tasks, dep) {
                    Some(_) => {},
                    None => {
                        proof {
                            assert(self.tasks@[i as int].1@.dependencies[j as int] == dep@);
                            assert(self.tasks@[i as int].1@.dependencies.contains(dep@));
                            assert(!all_deps_present(self.tasks@));
                        }
                        return Err(
                            TaskRunnerError::DependencyNotFound(
                                dep.clone(),
                                self.tasks[i].0.clone(),
                            ),
                        );
                    },
                }
                j += 1;
            }
            i += 1;
        }
        Ok(())
    }

    /// Validate the configuration: every task well formed, no dependency
    /// cycle anywhere in the graph, and no dangling dependency reference.
    /// Checked in that order, so a cycle is reported even when a dangling
    /// reference also exists.
    #[verifier::loop_isolation(false)]
    pub fn validate(&self) -> (r: Result<(), TaskRunnerError>)
        ensures
            r is Ok <==> (all_tasks_valid(self.tasks@) && resolve_spec(
                self.graph(),
                visit_frames(keys_of(self.tasks@)),
                init_state(),
                false,
            ) is Ok && all_deps_present(self.tasks@)),
            !all_tasks_valid(self.tasks@) ==> r matches Err(TaskRunnerError::ConfigParseError(_)),
            r matches Err(TaskRunnerError::ConfigParseError(m)) ==> !all_tasks_valid(self.tasks@),
            resolve_spec(
                self.graph(),
                visit_frames(keys_of(self.tasks@)),
                init_state(),
                false,
            ) matches Err(ResolveError::Circular(n)) ==> (all_tasks_valid(self.tasks@) ==> (
            r matches Err(TaskRunnerError::CircularDependency(s)) && s@ == n)),
            r matches Err(TaskRunnerError::CircularDependency(n)) ==> resolve_spec(
                self.graph(),
                visit_frames(keys_of(self.tasks@)),
                init_state(),
                false,
            ) == Err::<Seq<Seq<char>>, ResolveError>(ResolveError::Circular(n@)),
            all_tasks_valid(self.tasks@) && resolve_spec(
                self.graph(),
                visit_frames(keys_of(self.tasks@)),
                init_state(),
                false,
            ) is Ok && !all_deps_present(self.tasks@) ==> r matches Err(
                TaskRunnerError::DependencyNotFound(_, _),
            ),
            r matches Err(TaskRunnerError::DependencyNotFound(d, o)) ==> !all_deps_present(
                self.tasks@,
            ) && !self.graph().dom().contains(d@) && exists|i: int|
                0 <= i < self.tasks@.len() && (#[trigger] self.tasks@[i]).0@ == o@
                    && self.tasks@[i].1@.dependencies.contains(d@),
    {
        let mut i: usize = 0;
        while i < self.tasks.len()
            invariant
                i <= self.tasks.len(),
                forall|i2: int| 0 <= i2 < i ==> valid_task(#[trigger] self.tasks@[i2].1@),
            decreases self.tasks.len() - i,
        {
            match self.tasks[i].1.validate(self.tasks[i].0.as_str()) {
                Ok(()) => {},
                Err(m) => {
                    return Err(TaskRunnerError::ConfigParseError(m));
                },
            }
            i += 1;
        }
        match self.check_circular_dependencies() {
            Ok(()) => {},
            Err(e) => {
                return Err(e);
            },
        }
        match self.check_dependencies() {
            Ok(()) => {},
            Err(e) => {
                return Err(e);
            },
        }
        Ok(())
    }
}

} // verus!
