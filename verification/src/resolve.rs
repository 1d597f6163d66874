use crate::error::TaskRunnerError;
use crate::task::Task;
use crate::task::TaskView;
use vstd::prelude::*;

verus! {

broadcast use vstd::set::group_set_axioms, vstd::seq_lib::seq_to_set_is_finite;

/// The dependency graph as a mathematical object: task name to task model.
/// Built from the configuration's entry list; the earliest entry for a name
/// wins, which matches a front-to-back linear search.
pub open spec fn graph_of(entries: Seq<(String, Task)>) -> Map<Seq<char>, TaskView>
    decreases entries.len(),
{
    if entries.len() == 0 {
        Map::empty()
    } else {
        graph_of(entries.drop_first()).insert(entries[0].0@, entries[0].1@)
    }
}

pub proof fn lemma_graph_of_finite(entries: Seq<(String, Task)>)
    ensures
        graph_of(entries).dom().finite(),
    decreases entries.len(),
{
    if entries.len() > 0 {
        lemma_graph_of_finite(entries.drop_first());
    }
}

/// The declared dependencies of a task present in the graph.
pub open spec fn deps_of(g: Map<Seq<char>, TaskView>, n: Seq<char>) -> Seq<Seq<char>> {
    g[n].dependencies
}

/// One pending step of the depth-first traversal: visit a task (placing its
/// dependencies first), or finish it (append it to the order).
pub enum Frame {
    Visit(String),
    Finish(String),
}

pub ghost enum FrameView {
    Visit(Seq<char>),
    Finish(Seq<char>),
}

impl View for Frame {
    type V = FrameView;

    open spec fn view(&self) -> FrameView {
        match self {
            Frame::Visit(n) => FrameView::Visit(n@),
            Frame::Finish(n) => FrameView::Finish(n@),
        }
    }
}

impl DeepView for Frame {
    type V = FrameView;

    open spec fn deep_view(&self) -> FrameView {
        self.view()
    }
}

/// Structural errors of dependency resolution, over spec values.
pub ghost enum ResolveError {
    NotFound(Seq<char>),
    Circular(Seq<char>),
}

/// The traversal state: tasks already placed in the order, and the chain of
/// tasks whose dependencies are still being resolved.
pub ghost struct ResolveState {
    pub order: Seq<Seq<char>>,
    pub in_prog: Seq<Seq<char>>,
}

pub open spec fn init_state() -> ResolveState {
    ResolveState { order: Seq::empty(), in_prog: Seq::empty() }
}

/// A visit frame for every requested name, in request order.
pub open spec fn visit_frames(names: Seq<Seq<char>>) -> Seq<FrameView> {
    names.map_values(|n: Seq<char>| FrameView::Visit(n))
}

pub open spec fn names_of(s: Seq<String>) -> Seq<Seq<char>> {
    s.map_values(|x: String| x@)
}

/// Tasks the traversal has touched: placed or still in progress.
pub open spec fn marked(st: ResolveState) -> Set<Seq<char>> {
    st.order.to_set().union(st.in_prog.to_set())
}

/// Graph tasks the traversal has not touched yet; the termination measure.
pub open spec fn unmarked(g: Map<Seq<char>, TaskView>, st: ResolveState) -> nat {
    g.dom().difference(marked(st)).len()
}

proof fn lemma_contains_push<A>(s: Seq<A>, v: A, x: A)
    ensures
        s.push(v).contains(x) <==> (s.contains(x) || x == v),
{
    if s.push(v).contains(x) {
        let i = choose|i: int| 0 <= i < s.push(v).len() && s.push(v)[i] == x;
        if i < s.len() {
            assert(s[i] == x);
        }
    }
    if s.contains(x) {
        let i = choose|i: int| 0 <= i < s.len() && s[i] == x;
        assert(s.push(v)[i] == x);
    }
    if x == v {
        assert(s.push(v)[s.len() as int] == x);
    }
}

proof fn lemma_to_set_push<A>(s: Seq<A>, v: A)
    ensures
        s.push(v).to_set() =~= s.to_set().insert(v),
{
    assert forall|x: A| s.push(v).to_set().contains(x) <==> s.to_set().insert(v).contains(
        x,
    ) by {
        lemma_contains_push(s, v, x);
    }
}

/// Visiting a fresh graph task strictly shrinks the set of untouched tasks.
pub proof fn lemma_visit_marks(g: Map<Seq<char>, TaskView>, st: ResolveState, n: Seq<char>)
    requires
        g.dom().finite(),
        !st.order.contains(n),
        !st.in_prog.contains(n),
        g.dom().contains(n),
    ensures
        unmarked(g, ResolveState { order: st.order, in_prog: st.in_prog.push(n) }) < unmarked(
            g,
            st,
        ),
{
    let st2 = ResolveState { order: st.order, in_prog: st.in_prog.push(n) };
    lemma_to_set_push(st.in_prog, n);
    assert(marked(st2) =~= marked(st).insert(n));
    assert(g.dom().difference(marked(st2)) =~= g.dom().difference(marked(st)).remove(n));
    assert(g.dom().difference(marked(st)).contains(n));
}

/// Finishing the task on top of the progress chain moves it to the order and
/// leaves the set of touched tasks unchanged.
pub proof fn lemma_finish_marks(g: Map<Seq<char>, TaskView>, st: ResolveState, n: Seq<char>)
    requires
        st.in_prog.len() > 0,
        st.in_prog.last() == n,
    ensures
        unmarked(
            g,
            ResolveState { order: st.order.push(n), in_prog: st.in_prog.drop_last() },
        ) == unmarked(g, st),
{
    let st2 = ResolveState { order: st.order.push(n), in_prog: st.in_prog.drop_last() };
    lemma_to_set_push(st.order, n);
    lemma_to_set_push(st.in_prog.drop_last(), n);
    assert(st.in_prog =~= st.in_prog.drop_last().push(n));
    assert(marked(st2) =~= marked(st));
}

/// The depth-first resolution itself, as a function: consume pending frames,
/// threading the state, until the order is complete or a structural error is
/// found. A visit of a task already in progress closed a dependency cycle.
/// In strict mode a name absent from the graph is an error; otherwise such a
/// name is skipped (the cycle pre-pass tolerates dangling references, which a
/// separate check reports).
pub open spec fn resolve_spec(
    g: Map<Seq<char>, TaskView>,
    pend: Seq<FrameView>,
    st: ResolveState,
    strict: bool,
) -> Result<Seq<Seq<char>>, ResolveError>
    decreases unmarked(g, st), pend.len(),
        when g.dom().finite()
        via resolve_spec_decreases
{
    if pend.len() == 0 {
        Ok(st.order)
    } else {
        match pend[0] {
            FrameView::Visit(n) => {
                if st.order.contains(n) {
                    resolve_spec(g, pend.drop_first(), st, strict)
                } else if st.in_prog.contains(n) {
                    Err(ResolveError::Circular(n))
                } else if !g.dom().contains(n) {
                    if strict {
                        Err(ResolveError::NotFound(n))
                    } else {
                        resolve_spec(g, pend.drop_first(), st, strict)
                    }
                } else {
                    resolve_spec(
                        g,
                        visit_frames(deps_of(g, n)) + seq![FrameView::Finish(n)]
                            + pend.drop_first(),
                        ResolveState { order: st.order, in_prog: st.in_prog.push(n) },
                        strict,
                    )
                }
            },
            FrameView::Finish(n) => {
                if st.in_prog.len() > 0 && st.in_prog.last() == n {
                    resolve_spec(
                        g,
                        pend.drop_first(),
                        ResolveState { order: st.order.push(n), in_prog: st.in_prog.drop_last() },
                        strict,
                    )
                } else {
                    Err(ResolveError::Circular(n))
                }
            },
        }
    }
}

#[via_fn]
proof fn resolve_spec_decreases(
    g: Map<Seq<char>, TaskView>,
    pend: Seq<FrameView>,
    st: ResolveState,
    strict: bool,
) {
    if g.dom().finite() && pend.len() > 0 {
        match pend[0] {
            FrameView::Visit(n) => {
                if !st.order.contains(n) && !st.in_prog.contains(n) && g.dom().contains(n) {
                    lemma_visit_marks(g, st, n);
                }
            },
            FrameView::Finish(n) => {
                if st.in_prog.len() > 0 && st.in_prog.last() == n {
                    lemma_finish_marks(g, st, n);
                }
            },
        }
    }
}

fn contains_string(v: &Vec<String>, s: &String) -> (r: bool)
    ensures
        r == v.deep_view().contains(s@),
{
    let mut i: usize = 0;
    while i < v.len()
        invariant
            i <= v.len(),
            forall|j: int| 0 <= j < i ==> v.deep_view()[j] != s@,
        decreases v.len() - i,
    {
        if v[i].eq(s) {
            assert(v.deep_view()[i as int] == s@);
            return true;
        }
        i += 1;
    }
    false
}

/// Front-to-back search of the configuration's entry list; agrees with the
/// graph map, where the earliest entry for a name wins.
pub fn lookup_task<'a>(tasks: &'a Vec<(String, Task)>, name: &String) -> (r: Option<&'a Task>)
    ensures
        match r {
            Some(t) => graph_of(tasks@).dom().contains(name@) && t@ == graph_of(tasks@)[name@],
            None => !graph_of(tasks@).dom().contains(name@),
        },
{
    let ghost full = tasks@;
    proof {
        assert(full.skip(0) =~= full);
    }
    let mut i: usize = 0;
    while i < tasks.len()
        invariant
            i <= tasks.len(),
            full == tasks@,
            graph_of(full.skip(i as int)).dom().contains(name@) == graph_of(full).dom().contains(
                name@,
            ),
            graph_of(full.skip(i as int)).dom().contains(name@) ==> graph_of(
                full.skip(i as int),
            )[name@] == graph_of(full)[name@],
        decreases tasks.len() - i,
    {
        proof {
            assert(full.skip(i as int).drop_first() =~= full.skip(i as int + 1));
            assert(full.skip(i as int)[0] == full[i as int]);
        }
        if tasks[i].0.eq(name) {
            return Some(&tasks[i].1);
        }
        i += 1;
    }
    proof {
        assert(full.skip(tasks.len() as int) =~= Seq::<(String, Task)>::empty());
    }
    None
}

/// Run the traversal to completion over an explicit frame stack. Returns the
/// execution order exactly as `resolve_spec` gives it, or the corresponding
/// structural error.
#[verifier::loop_isolation(false)]
pub fn resolve_frames(tasks: &Vec<(String, Task)>, pend: Vec<Frame>, strict: bool) -> (r: Result<
    Vec<String>,
    TaskRunnerError,
>)
    ensures
        match resolve_spec(graph_of(tasks@), pend.deep_view(), init_state(), strict) {
            Ok(o) => r matches Ok(v) && v.deep_view() == o,
            Err(ResolveError::NotFound(n)) => r matches Err(TaskRunnerError::TaskNotFound(s))
                && s@ == n,
            Err(ResolveError::Circular(n)) => r matches Err(
                TaskRunnerError::CircularDependency(s),
            ) && s@ == n,
        },
{
    let ghost g = graph_of(tasks@);
    let ghost p0 = pend.deep_view();
    proof {
        lemma_graph_of_finite(tasks@);
    }
    let mut pend = pend;
    let mut order: Vec<String> = Vec::new();
    let mut in_prog: Vec<String> = Vec::new();
    proof {
        assert(order.deep_view() =~= Seq::<Seq<char>>::empty());
        assert(in_prog.deep_view() =~= Seq::<Seq<char>>::empty());
    }
    while pend.len() > 0
        invariant
            g == graph_of(tasks@),
            g.dom().finite(),
            resolve_spec(
                g,
                pend.deep_view(),
                ResolveState { order: order.deep_view(), in_prog: in_prog.deep_view() },
                strict,
            ) == resolve_spec(g, p0, init_state(), strict),
        decreases unmarked(
            g,
            ResolveState { order: order.deep_view(), in_prog: in_prog.deep_view() },
        ), pend.deep_view().len(),
    {
        let ghost p_at = pend.deep_view();
        let ghost st_at = ResolveState { order: order.deep_view(), in_prog: in_prog.deep_view() };
        let frame = pend.remove(0);
        proof {
            assert(pend.deep_view() =~= p_at.drop_first());
            assert(frame.deep_view() == p_at[0]);
        }
        match frame {
            Frame::Visit(n) => {
                if contains_string(&order, &n) {
                    // already placed: skip
                    proof {
                        assert(resolve_spec(g, p_at, st_at, strict) == resolve_spec(
                            g,
                            p_at.drop_first(),
                            st_at,
                            strict,
                        ));
                    }
                } else if contains_string(&in_prog, &n) {
                    proof {
                        assert(resolve_spec(g, p_at, st_at, strict) == Err::<Seq<Seq<char>>, _>(
                            ResolveError::Circular(n@),
                        ));
                    }
                    return Err(TaskRunnerError::CircularDependency(n));
                } else {
                    match lookup_task(tasks, &n) {
                        None => {
                            if strict {
                                proof {
                                    assert(resolve_spec(g, p_at, st_at, strict) == Err::<
                                        Seq<Seq<char>>,
                                        _,
                                    >(ResolveError::NotFound(n@)));
                                }
                                return Err(TaskRunnerError::TaskNotFound(n));
                            }
                            // dangling reference tolerated in the pre-pass: skip
                            proof {
                                assert(resolve_spec(g, p_at, st_at, strict) == resolve_spec(
                                    g,
                                    p_at.drop_first(),
                                    st_at,
                                    strict,
                                ));
                            }
                        },
                        Some(task) => {
                            let ghost nv = n@;
                            let deps = &task.dependencies;
                            let mut new_pend: Vec<Frame> = Vec::new();
                            let mut di: usize = 0;
                            while di < deps.len()
                                invariant
                                    di <= deps.len(),
                                    new_pend.deep_view() =~= visit_frames(
                                        deps.deep_view().take(di as int),
                                    ),
                                decreases deps.len() - di,
                            {
                                new_pend.push(Frame::Visit(deps[di].clone()));
                                proof {
                                    assert(deps.deep_view().take(di + 1 as int).drop_last()
                                        =~= deps.deep_view().take(di as int));
                                    assert(new_pend.deep_view() =~= visit_frames(
                                        deps.deep_view().take(di as int),
                                    ).push(FrameView::Visit(deps.deep_view()[di as int])));
                                    assert(visit_frames(deps.deep_view().take(di + 1 as int))
                                        =~= visit_frames(deps.deep_view().take(di as int)).push(
                                        FrameView::Visit(deps.deep_view()[di as int]),
                                    ));
                                }
                                di += 1;
                            }
                            new_pend.push(Frame::Finish(n.clone()));
                            new_pend.append(&mut pend);
                            pend = new_pend;
                            in_prog.push(n);
                            proof {
                                assert(deps.deep_view().take(deps.deep_view().len() as int)
                                    =~= deps.deep_view());
                                assert(deps.deep_view() == deps_of(g, nv));
                                assert(pend.deep_view() =~= visit_frames(deps_of(g, nv)) + seq![
                                    FrameView::Finish(nv),
                                ] + p_at.drop_first());
                                assert(in_prog.deep_view() =~= st_at.in_prog.push(nv));
                                lemma_visit_marks(g, st_at, nv);
                                assert(resolve_spec(g, p_at, st_at, strict) == resolve_spec(
                                    g,
                                    pend.deep_view(),
                                    ResolveState {
                                        order: order.deep_view(),
                                        in_prog: in_prog.deep_view(),
                                    },
                                    strict,
                                ));
                            }
                        },
                    }
                }
            },
            Frame::Finish(n) => {
                let fit = in_prog.len() > 0 && in_prog[in_prog.len() - 1].eq(&n);
                if fit {
                    let ghost nv = n@;
                    in_prog.pop();
                    order.push(n);
                    proof {
                        assert(st_at.in_prog.last() == nv);
                        assert(in_prog.deep_view() =~= st_at.in_prog.drop_last());
                        assert(order.deep_view() =~= st_at.order.push(nv));
                        lemma_finish_marks(g, st_at, nv);
                        assert(resolve_spec(g, p_at, st_at, strict) == resolve_spec(
                            g,
                            p_at.drop_first(),
                            ResolveState {
                                order: order.deep_view(),
                                in_prog: in_prog.deep_view(),
                            },
                            strict,
                        ));
                    }
                } else {
                    // the frame stack and the progress chain always agree;
                    // this matches the spec's guard
                    proof {
                        assert(resolve_spec(g, p_at, st_at, strict) == Err::<Seq<Seq<char>>, _>(
                            ResolveError::Circular(n@),
                        ));
                    }
                    return Err(TaskRunnerError::CircularDependency(n));
                }
            },
        }
    }
    proof {
        assert(resolve_spec(
            g,
            pend.deep_view(),
            ResolveState { order: order.deep_view(), in_prog: in_prog.deep_view() },
            strict,
        ) == Ok::<_, ResolveError>(order.deep_view()));
    }
    Ok(order)
}

} // verus!
