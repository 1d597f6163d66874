use crate::resolve::deps_of;
use crate::resolve::init_state;
use crate::resolve::lemma_graph_of_finite;
use crate::resolve::lemma_finish_marks;
use crate::resolve::lemma_visit_marks;
use crate::resolve::resolve_spec;
use crate::resolve::unmarked;
use crate::resolve::visit_frames;
use crate::resolve::FrameView;
use crate::resolve::ResolveError;
use crate::resolve::ResolveState;
use crate::task::TaskView;
use vstd::prelude::*;
use vstd::seq_lib::seq_to_set_is_finite;
use vstd::set::group_set_axioms;

verus! {

broadcast use group_set_axioms, seq_to_set_is_finite;

/// Task `a` depends directly on task `b`.
pub open spec fn edge(g: Map<Seq<char>, TaskView>, a: Seq<char>, b: Seq<char>) -> bool {
    g.dom().contains(a) && deps_of(g, a).contains(b)
}

/// `p` walks the graph along dependency edges.
pub open spec fn is_path(g: Map<Seq<char>, TaskView>, p: Seq<Seq<char>>) -> bool {
    &&& p.len() >= 1
    &&& forall|k: int| 0 <= k < p.len() - 1 ==> edge(g, #[trigger] p[k], p[k + 1])
}

/// No name occurs twice.
pub open spec fn no_dups(o: Seq<Seq<char>>) -> bool {
    forall|i: int, j: int| 0 <= i < j < o.len() ==> o[i] != o[j]
}

/// Every dependency of every placed task that exists in the graph is itself
/// placed, strictly earlier.
pub open spec fn deps_placed(g: Map<Seq<char>, TaskView>, o: Seq<Seq<char>>) -> bool {
    forall|i: int, j: int|
        0 <= i < o.len() && 0 <= j < deps_of(g, o[i]).len() && g.dom().contains(
            #[trigger] deps_of(g, #[trigger] o[i])[j],
        ) ==> exists|k: int| 0 <= k < i && o[k] == deps_of(g, o[i])[j]
}

/// The names the traversal state has placed or begun, as invariants require.
spec fn state_ok(g: Map<Seq<char>, TaskView>, st: ResolveState) -> bool {
    &&& forall|i: int| 0 <= i < st.order.len() ==> g.dom().contains(#[trigger] st.order[i])
    &&& no_dups(st.order)
    &&& no_dups(st.in_prog)
    &&& forall|x: Seq<char>| st.order.contains(x) ==> !st.in_prog.contains(x)
    &&& deps_placed(g, st.order)
}

/// Each finish frame's task exists, and each of its graph dependencies is
/// already placed or will be handled by an earlier pending frame.
spec fn frames_ok(
    g: Map<Seq<char>, TaskView>,
    pend: Seq<FrameView>,
    st: ResolveState,
) -> bool {
    forall|k: int|
        0 <= k < pend.len() ==> match #[trigger] pend[k] {
            FrameView::Finish(n) => {
                &&& g.dom().contains(n)
                &&& forall|j: int|
                    0 <= j < deps_of(g, n).len() ==> {
                        let d = #[trigger] deps_of(g, n)[j];
                        ||| !g.dom().contains(d)
                        ||| st.order.contains(d)
                        ||| exists|m: int|
                            0 <= m < k && (pend[m] == FrameView::Visit(d) || pend[m]
                                == FrameView::Finish(d))
                    }
            },
            FrameView::Visit(_) => true,
        }
}

/// The names of the finish frames of `pend`, front to back.
spec fn finish_names(pend: Seq<FrameView>) -> Seq<Seq<char>>
    decreases pend.len(),
{
    if pend.len() == 0 {
        Seq::empty()
    } else {
        match pend[0] {
            FrameView::Finish(n) => seq![n] + finish_names(pend.drop_first()),
            FrameView::Visit(_) => finish_names(pend.drop_first()),
        }
    }
}

/// The pending finish frames are exactly the in-progress chain, innermost
/// first.
spec fn chain_ok(pend: Seq<FrameView>, st: ResolveState) -> bool {
    finish_names(pend) == st.in_prog.reverse()
}

proof fn lemma_finish_names_concat(a: Seq<FrameView>, b: Seq<FrameView>)
    ensures
        finish_names(a + b) == finish_names(a) + finish_names(b),
    decreases a.len(),
{
    if a.len() == 0 {
        assert(a + b =~= b);
        assert(finish_names(a) + finish_names(b) =~= finish_names(b));
    } else {
        assert((a + b).drop_first() =~= a.drop_first() + b);
        lemma_finish_names_concat(a.drop_first(), b);
        assert((a + b)[0] == a[0]);
        match a[0] {
            FrameView::Finish(n) => {
                assert(seq![n] + (finish_names(a.drop_first()) + finish_names(b)) =~= (seq![n]
                    + finish_names(a.drop_first())) + finish_names(b));
            },
            FrameView::Visit(_) => {},
        }
    }
}

proof fn lemma_finish_names_visits(names: Seq<Seq<char>>)
    ensures
        finish_names(visit_frames(names)) == Seq::<Seq<char>>::empty(),
    decreases names.len(),
{
    if names.len() == 0 {
        assert(visit_frames(names) =~= Seq::<FrameView>::empty());
    } else {
        assert(visit_frames(names).drop_first() =~= visit_frames(names.drop_first()));
        lemma_finish_names_visits(names.drop_first());
    }
}

/// The central induction: when the traversal succeeds from a well-formed
/// state, the returned order extends the state's order, has no duplicates,
/// names only graph tasks, places every dependency before its dependent, and
/// contains the task of every pending frame whose name the graph holds (in
/// strict mode, of every pending frame).
proof fn lemma_resolve_ok(
    g: Map<Seq<char>, TaskView>,
    pend: Seq<FrameView>,
    st: ResolveState,
    strict: bool,
)
    requires
        g.dom().finite(),
        state_ok(g, st),
        frames_ok(g, pend, st),
        chain_ok(pend, st),
        resolve_spec(g, pend, st, strict) is Ok,
    ensures
        ({
            let o = resolve_spec(g, pend, st, strict)->Ok_0;
            &&& st.order.is_prefix_of(o)
            &&& no_dups(o)
            &&& forall|i: int| 0 <= i < o.len() ==> g.dom().contains(#[trigger] o[i])
            &&& deps_placed(g, o)
            &&& forall|k: int|
                0 <= k < pend.len() ==> match #[trigger] pend[k] {
                    FrameView::Visit(n) => (strict || g.dom().contains(n)) ==> o.contains(n),
                    FrameView::Finish(n) => o.contains(n),
                }
        }),
    decreases unmarked(g, st), pend.len(),
{
    let o = resolve_spec(g, pend, st, strict)->Ok_0;
    if pend.len() == 0 {
        assert(st.order.is_prefix_of(o));
    } else {
        match pend[0] {
            FrameView::Visit(n) => {
                if st.order.contains(n) {
                    lemma_step_skip(g, pend, st, strict);
                    lemma_resolve_ok(g, pend.drop_first(), st, strict);
                    assert forall|k: int| 0 <= k < pend.len() implies match #[trigger] pend[k] {
                        FrameView::Visit(m) => (strict || g.dom().contains(m)) ==> o.contains(m),
                        FrameView::Finish(m) => o.contains(m),
                    } by {
                        if k == 0 {
                            lemma_prefix_contains(st.order, o, n);
                        } else {
                            assert(pend.drop_first()[k - 1] == pend[k]);
                        }
                    }
                } else if st.in_prog.contains(n) {
                    assert(false);
                } else if !g.dom().contains(n) {
                    assert(!strict);
                    lemma_step_skip(g, pend, st, strict);
                    lemma_resolve_ok(g, pend.drop_first(), st, strict);
                    assert forall|k: int| 0 <= k < pend.len() implies match #[trigger] pend[k] {
                        FrameView::Visit(m) => (strict || g.dom().contains(m)) ==> o.contains(m),
                        FrameView::Finish(m) => o.contains(m),
                    } by {
                        if k > 0 {
                            assert(pend.drop_first()[k - 1] == pend[k]);
                        }
                    }
                } else {
                    let deps = deps_of(g, n);
                    let vis = visit_frames(deps);
                    let pend2 = vis + seq![FrameView::Finish(n)] + pend.drop_first();
                    let st2 = ResolveState { order: st.order, in_prog: st.in_prog.push(n) };
                    assert(resolve_spec(g, pend, st, strict) == resolve_spec(
                        g,
                        pend2,
                        st2,
                        strict,
                    ));
                    // frame bookkeeping for the grown stack
                    assert forall|m: int| 0 <= m < pend2.len() implies pend2[m] == (if m
                        < deps.len() {
                        FrameView::Visit(deps[m])
                    } else if m == deps.len() {
                        FrameView::Finish(n)
                    } else {
                        pend[m - deps.len()]
                    }) by {
                        if m < deps.len() {
                            assert(pend2[m] == vis[m]);
                        } else if m > deps.len() {
                            assert(pend2[m] == pend.drop_first()[m - deps.len() - 1]);
                        }
                    }
                    assert(state_ok(g, st2)) by {
                        lemma_contains_push_law(st.in_prog, n);
                        assert forall|x: Seq<char>| st2.order.contains(x) implies !st2.in_prog.contains(
                            x,
                        ) by {
                            lemma_contains_push_law(st.in_prog, x);
                        }
                        assert(no_dups(st.in_prog.push(n))) by {
                            assert forall|i: int, j: int|
                                0 <= i < j < st2.in_prog.len() implies st2.in_prog[i]
                                != st2.in_prog[j] by {
                                if j == st.in_prog.len() {
                                    assert(st.in_prog.contains(st.in_prog[i]));
                                }
                            }
                        }
                    }
                    assert(frames_ok(g, pend2, st2)) by {
                        assert forall|k: int| 0 <= k < pend2.len() implies match #[trigger] pend2[k] {
                            FrameView::Finish(m) => {
                                &&& g.dom().contains(m)
                                &&& forall|j: int|
                                    0 <= j < deps_of(g, m).len() ==> {
                                        let d = #[trigger] deps_of(g, m)[j];
                                        ||| !g.dom().contains(d)
                                        ||| st2.order.contains(d)
                                        ||| exists|t: int|
                                            0 <= t < k && (pend2[t] == FrameView::Visit(d)
                                                || pend2[t] == FrameView::Finish(d))
                                    }
                            },
                            FrameView::Visit(_) => true,
                        } by {
                            if k == deps.len() {
                                // the new finish frame: every dependency has a
                                // visit frame right in front of it
                                assert forall|j: int| 0 <= j < deps_of(g, n).len() implies {
                                    let d = #[trigger] deps_of(g, n)[j];
                                    ||| !g.dom().contains(d)
                                    ||| st2.order.contains(d)
                                    ||| exists|t: int|
                                        0 <= t < k && (pend2[t] == FrameView::Visit(d) || pend2[t]
                                            == FrameView::Finish(d))
                                } by {
                                    assert(pend2[j] == FrameView::Visit(deps_of(g, n)[j]));
                                }
                            } else if k > deps.len() {
                                let ko = k - deps.len();
                                assert(pend2[k] == pend[ko]);
                                match pend[ko] {
                                    FrameView::Finish(m) => {
                                        assert forall|j: int|
                                            0 <= j < deps_of(g, m).len() implies {
                                            let d = #[trigger] deps_of(g, m)[j];
                                            ||| !g.dom().contains(d)
                                            ||| st2.order.contains(d)
                                            ||| exists|t: int|
                                                0 <= t < k && (pend2[t] == FrameView::Visit(d)
                                                    || pend2[t] == FrameView::Finish(d))
                                        } by {
                                            let d = deps_of(g, m)[j];
                                            if g.dom().contains(d) && !st.order.contains(d) {
                                                let t0 = choose|t: int|
                                                    0 <= t < ko && (pend[t] == FrameView::Visit(d)
                                                        || pend[t] == FrameView::Finish(d));
                                                if t0 == 0 {
                                                    // that frame was the visit of n itself
                                                    assert(pend[0] == FrameView::Visit(d));
                                                    assert(d == n);
                                                    assert(pend2[deps.len() as int]
                                                        == FrameView::Finish(d));
                                                } else {
                                                    assert(pend2[t0 + deps.len()] == pend[t0]);
                                                }
                                            }
                                        }
                                    },
                                    FrameView::Visit(_) => {},
                                }
                            }
                        }
                    }
                    assert(chain_ok(pend2, st2)) by {
                        lemma_finish_names_visits(deps);
                        lemma_finish_names_concat(vis, seq![FrameView::Finish(n)]);
                        lemma_finish_names_concat(vis + seq![FrameView::Finish(n)], pend.drop_first());
                        assert(finish_names(seq![FrameView::Finish(n)]) =~= seq![n]) by {
                            let s1 = seq![FrameView::Finish(n)];
                            assert(s1.drop_first() =~= Seq::<FrameView>::empty());
                            assert(finish_names(Seq::<FrameView>::empty())
                                =~= Seq::<Seq<char>>::empty());
                            assert(s1[0] == FrameView::Finish(n));
                            assert(finish_names(s1) == seq![n] + finish_names(s1.drop_first()));
                            assert(seq![n] + Seq::<Seq<char>>::empty() =~= seq![n]);
                        }
                        assert(finish_names(pend) == finish_names(pend.drop_first()));
                        assert(st2.in_prog.reverse() =~= seq![n] + st.in_prog.reverse());
                        assert(finish_names(pend2) =~= seq![n] + finish_names(pend.drop_first()));
                    }
                    lemma_visit_marks(g, st, n);
                    lemma_resolve_ok(g, pend2, st2, strict);
                    assert forall|k: int| 0 <= k < pend.len() implies match #[trigger] pend[k] {
                        FrameView::Visit(m) => (strict || g.dom().contains(m)) ==> o.contains(m),
                        FrameView::Finish(m) => o.contains(m),
                    } by {
                        if k == 0 {
                            assert(pend2[deps.len() as int] == FrameView::Finish(n));
                        } else {
                            assert(pend2[k + deps.len()] == pend[k]);
                        }
                    }
                }
            },
            FrameView::Finish(n) => {
                // success means the guard held: the chain ends with n
                assert(st.in_prog.len() > 0 && st.in_prog.last() == n);
                let st2 = ResolveState {
                    order: st.order.push(n),
                    in_prog: st.in_prog.drop_last(),
                };
                assert(resolve_spec(g, pend, st, strict) == resolve_spec(
                    g,
                    pend.drop_first(),
                    st2,
                    strict,
                ));
                assert(st.in_prog.contains(n));
                assert(!st.order.contains(n));
                assert(g.dom().contains(n)) by {
                    assert(pend[0] == FrameView::Finish(n));
                }
                assert(state_ok(g, st2)) by {
                    lemma_contains_push_law(st.order, n);
                    assert forall|i: int| 0 <= i < st2.order.len() implies g.dom().contains(
                        #[trigger] st2.order[i],
                    ) by {
                        if i < st.order.len() {
                            assert(st2.order[i] == st.order[i]);
                        }
                    }
                    assert(no_dups(st2.order)) by {
                        assert forall|i: int, j: int|
                            0 <= i < j < st2.order.len() implies st2.order[i] != st2.order[j] by {
                            if j == st.order.len() {
                                assert(st.order.contains(st.order[i]));
                            }
                        }
                    }
                    assert(no_dups(st2.in_prog)) by {
                        assert forall|i: int, j: int|
                            0 <= i < j < st2.in_prog.len() implies st2.in_prog[i]
                            != st2.in_prog[j] by {
                            assert(st.in_prog[i] == st2.in_prog[i]);
                            assert(st.in_prog[j] == st2.in_prog[j]);
                        }
                    }
                    assert forall|x: Seq<char>| st2.order.contains(x) implies !st2.in_prog.contains(
                        x,
                    ) by {
                        lemma_contains_push_law(st.order, x);
                        if st2.in_prog.contains(x) {
                            let i = choose|i: int|
                                0 <= i < st2.in_prog.len() && st2.in_prog[i] == x;
                            assert(st.in_prog[i] == x);
                            assert(st.in_prog.contains(x));
                            if x == n {
                                assert(st.in_prog[st.in_prog.len() - 1] == n);
                                assert(!no_dups(st.in_prog));
                            }
                        }
                    }
                    assert(deps_placed(g, st2.order)) by {
                        assert forall|i: int, j: int|
                            0 <= i < st2.order.len() && 0 <= j < deps_of(g, st2.order[i]).len()
                                && g.dom().contains(
                                #[trigger] deps_of(g, #[trigger] st2.order[i])[j],
                            ) implies exists|k: int|
                            0 <= k < i && st2.order[k] == deps_of(g, st2.order[i])[j] by {
                            let d = deps_of(g, st2.order[i])[j];
                            if i < st.order.len() {
                                assert(st2.order[i] == st.order[i]);
                                let k = choose|k: int|
                                    0 <= k < i && st.order[k] == deps_of(g, st.order[i])[j];
                                assert(st2.order[k] == d);
                            } else {
                                // the finished task: its dependencies are
                                // covered with no earlier frame left, so each
                                // is already in the order
                                assert(st2.order[i] == n);
                                assert(st.order.contains(d));
                                let k = choose|k: int|
                                    0 <= k < st.order.len() && st.order[k] == d;
                                assert(st2.order[k] == d);
                            }
                        }
                    }
                }
                assert(frames_ok(g, pend.drop_first(), st2)) by {
                    assert forall|k: int|
                        0 <= k < pend.drop_first().len() implies match #[trigger] pend.drop_first()[k] {
                        FrameView::Finish(m) => {
                            &&& g.dom().contains(m)
                            &&& forall|j: int|
                                0 <= j < deps_of(g, m).len() ==> {
                                    let d = #[trigger] deps_of(g, m)[j];
                                    ||| !g.dom().contains(d)
                                    ||| st2.order.contains(d)
                                    ||| exists|t: int|
                                        0 <= t < k && (pend.drop_first()[t] == FrameView::Visit(d)
                                            || pend.drop_first()[t] == FrameView::Finish(d))
                                }
                        },
                        FrameView::Visit(_) => true,
                    } by {
                        assert(pend.drop_first()[k] == pend[k + 1]);
                        match pend[k + 1] {
                            FrameView::Finish(m) => {
                                assert forall|j: int| 0 <= j < deps_of(g, m).len() implies {
                                    let d = #[trigger] deps_of(g, m)[j];
                                    ||| !g.dom().contains(d)
                                    ||| st2.order.contains(d)
                                    ||| exists|t: int|
                                        0 <= t < k && (pend.drop_first()[t] == FrameView::Visit(d)
                                            || pend.drop_first()[t] == FrameView::Finish(d))
                                } by {
                                    let d = deps_of(g, m)[j];
                                    if g.dom().contains(d) {
                                        lemma_contains_push_law(st.order, d);
                                        if !st.order.contains(d) && d != n {
                                            let t0 = choose|t: int|
                                                0 <= t < k + 1 && (pend[t] == FrameView::Visit(d)
                                                    || pend[t] == FrameView::Finish(d));
                                            assert(t0 != 0);
                                            assert(pend.drop_first()[t0 - 1] == pend[t0]);
                                        }
                                    }
                                }
                            },
                            FrameView::Visit(_) => {},
                        }
                    }
                }
                assert(chain_ok(pend.drop_first(), st2)) by {
                    assert(finish_names(pend) == seq![n] + finish_names(pend.drop_first()));
                    assert(st.in_prog =~= st2.in_prog.push(n));
                    assert(st.in_prog.reverse() =~= seq![n] + st2.in_prog.reverse());
                    assert(finish_names(pend.drop_first()) =~= st2.in_prog.reverse()) by {
                        assert forall|i: int|
                            0 <= i < finish_names(pend.drop_first()).len() implies finish_names(
                            pend.drop_first(),
                        )[i] == st2.in_prog.reverse()[i] by {
                            assert(finish_names(pend)[i + 1] == finish_names(pend.drop_first())[i]);
                            assert(st.in_prog.reverse()[i + 1] == st2.in_prog.reverse()[i]);
                        }
                    }
                }
                lemma_finish_marks(g, st, n);
                lemma_resolve_ok(g, pend.drop_first(), st2, strict);
                assert(st.order.is_prefix_of(st2.order));
                assert(st.order.is_prefix_of(o));
                assert forall|k: int| 0 <= k < pend.len() implies match #[trigger] pend[k] {
                    FrameView::Visit(m) => (strict || g.dom().contains(m)) ==> o.contains(m),
                    FrameView::Finish(m) => o.contains(m),
                } by {
                    if k == 0 {
                        assert(st2.order[st.order.len() as int] == n);
                        assert(st2.order.contains(n));
                        lemma_prefix_contains(st2.order, o, n);
                    } else {
                        assert(pend.drop_first()[k - 1] == pend[k]);
                    }
                }
            },
        }
    }
}

/// One skipped frame leaves the result unchanged.
proof fn lemma_step_skip(
    g: Map<Seq<char>, TaskView>,
    pend: Seq<FrameView>,
    st: ResolveState,
    strict: bool,
)
    requires
        g.dom().finite(),
        pend.len() > 0,
        pend[0] matches FrameView::Visit(n) && (st.order.contains(n) || (!st.in_prog.contains(n)
            && !g.dom().contains(n) && !strict)),
    ensures
        resolve_spec(g, pend, st, strict) == resolve_spec(g, pend.drop_first(), st, strict),
        frames_ok(g, pend, st) ==> frames_ok(g, pend.drop_first(), st),
        chain_ok(pend, st) ==> chain_ok(pend.drop_first(), st),
{
    let n = pend[0]->Visit_0;
    if frames_ok(g, pend, st) {
        assert forall|k: int|
            0 <= k < pend.drop_first().len() implies match #[trigger] pend.drop_first()[k] {
            FrameView::Finish(m) => {
                &&& g.dom().contains(m)
                &&& forall|j: int|
                    0 <= j < deps_of(g, m).len() ==> {
                        let d = #[trigger] deps_of(g, m)[j];
                        ||| !g.dom().contains(d)
                        ||| st.order.contains(d)
                        ||| exists|t: int|
                            0 <= t < k && (pend.drop_first()[t] == FrameView::Visit(d)
                                || pend.drop_first()[t] == FrameView::Finish(d))
                    }
            },
            FrameView::Visit(_) => true,
        } by {
            assert(pend.drop_first()[k] == pend[k + 1]);
            match pend[k + 1] {
                FrameView::Finish(m) => {
                    assert forall|j: int| 0 <= j < deps_of(g, m).len() implies {
                        let d = #[trigger] deps_of(g, m)[j];
                        ||| !g.dom().contains(d)
                        ||| st.order.contains(d)
                        ||| exists|t: int|
                            0 <= t < k && (pend.drop_first()[t] == FrameView::Visit(d)
                                || pend.drop_first()[t] == FrameView::Finish(d))
                    } by {
                        let d = deps_of(g, m)[j];
                        if g.dom().contains(d) && !st.order.contains(d) {
                            let t0 = choose|t: int|
                                0 <= t < k + 1 && (pend[t] == FrameView::Visit(d) || pend[t]
                                    == FrameView::Finish(d));
                            assert(t0 != 0);
                            assert(pend.drop_first()[t0 - 1] == pend[t0]);
                        }
                    }
                },
                FrameView::Visit(_) => {},
            }
        }
    }
}

proof fn lemma_contains_push_law<A>(s: Seq<A>, x: A)
    ensures
        forall|v: A| s.push(v).contains(x) <==> (s.contains(x) || x == v),
{
    assert forall|v: A| s.push(v).contains(x) <==> (s.contains(x) || x == v) by {
        if s.push(v).contains(x) {
            let i = choose|i: int| 0 <= i < s.push(v).len() && s.push(v)[i] == x;
            if i < s.len() {
                assert(s[i] == x);
            }
        }
        if s.contains(x) {
            let i = choose|i: int| 0 <= i < s.len() && s[i] == x;
            assert(s.push(v)[i] == x);
        }
        if x == v {
            assert(s.push(v)[s.len() as int] == x);
        }
    }
}

proof fn lemma_prefix_contains(a: Seq<Seq<char>>, b: Seq<Seq<char>>, x: Seq<char>)
    requires
        a.is_prefix_of(b),
        a.contains(x),
    ensures
        b.contains(x),
{
    let i = choose|i: int| 0 <= i < a.len() && a[i] == x;
    assert(b[i] == x);
}

/// When resolution of a request succeeds, the returned order lists each task
/// once, lists only graph tasks, places every present dependency strictly
/// before its dependent, and holds every requested task the graph knows (all
/// of them, in strict mode).
pub proof fn lemma_order_sound(
    g: Map<Seq<char>, TaskView>,
    names: Seq<Seq<char>>,
    o: Seq<Seq<char>>,
    strict: bool,
)
    requires
        g.dom().finite(),
        resolve_spec(g, visit_frames(names), init_state(), strict) == Ok::<
            Seq<Seq<char>>,
            ResolveError,
        >(o),
    ensures
        no_dups(o),
        forall|i: int| 0 <= i < o.len() ==> g.dom().contains(#[trigger] o[i]),
        deps_placed(g, o),
        forall|i: int|
            0 <= i < names.len() && (strict || g.dom().contains(#[trigger] names[i]))
                ==> o.contains(names[i]),
{
    let pend = visit_frames(names);
    assert(state_ok(g, init_state()));
    assert(frames_ok(g, pend, init_state())) by {
        assert(forall|k: int|
            0 <= k < pend.len() ==> #[trigger] pend[k] == FrameView::Visit(names[k]));
    }
    assert(chain_ok(pend, init_state())) by {
        lemma_finish_names_visits(names);
        assert(init_state().in_prog.reverse() =~= Seq::<Seq<char>>::empty());
    }
    lemma_resolve_ok(g, pend, init_state(), strict);
    assert forall|i: int|
        0 <= i < names.len() && (strict || g.dom().contains(#[trigger] names[i])) implies o.contains(
        names[i],
    ) by {
        assert(pend[i] == FrameView::Visit(names[i]));
    }
}

/// Dependency resolution is a function of the graph and the request: two
/// successful resolutions of the same input give the same order.
pub proof fn lemma_order_deterministic(
    g: Map<Seq<char>, TaskView>,
    names: Seq<Seq<char>>,
    o1: Seq<Seq<char>>,
    o2: Seq<Seq<char>>,
)
    requires
        resolve_spec(g, visit_frames(names), init_state(), true) == Ok::<
            Seq<Seq<char>>,
            ResolveError,
        >(o1),
        resolve_spec(g, visit_frames(names), init_state(), true) == Ok::<
            Seq<Seq<char>>,
            ResolveError,
        >(o2),
    ensures
        o1 == o2,
{
}

/// Walking any dependency path whose tasks all exist, starting from a task of
/// a duplicate-free, dependency-closed order, stays inside the order and
/// strictly decreases the position. Positions are first occurrences, which
/// are unique without duplicates.
pub proof fn lemma_path_descends(g: Map<Seq<char>, TaskView>, o: Seq<Seq<char>>, p: Seq<Seq<char>>)
    requires
        no_dups(o),
        deps_placed(g, o),
        is_path(g, p),
        o.contains(p.first()),
        forall|k: int| 0 <= k < p.len() ==> g.dom().contains(#[trigger] p[k]),
    ensures
        o.contains(p.last()),
        p.len() >= 2 ==> o.index_of(p.last()) < o.index_of(p.first()),
    decreases p.len(),
{
    if p.len() >= 2 {
        let a = p.first();
        let b = p[1];
        assert(edge(g, a, b));
        let ia = o.index_of(a);
        assert(0 <= ia < o.len() && o[ia] == a);
        let j = choose|j: int| 0 <= j < deps_of(g, a).len() && deps_of(g, a)[j] == b;
        assert(o[ia] == a);
        let k = choose|k: int| 0 <= k < ia && o[k] == deps_of(g, a)[j];
        assert(o.contains(b)) by {
            assert(o[k] == b);
        }
        let ib = o.index_of(b);
        assert(0 <= ib < o.len() && o[ib] == b);
        assert(ib < ia) by {
            if ib != k {
                assert(o[ib] == o[k]);
                assert(no_dups(o));
                if ib < k {
                    assert(o[ib] != o[k]);
                } else {
                    assert(o[k] != o[ib]);
                }
            }
        }
        let q = p.drop_first();
        assert(is_path(g, q)) by {
            assert forall|t: int| 0 <= t < q.len() - 1 implies edge(g, #[trigger] q[t], q[t + 1]) by {
                assert(q[t] == p[t + 1]);
                assert(q[t + 1] == p[t + 2]);
            }
        }
        assert(q.first() == b);
        assert(forall|t: int| 0 <= t < q.len() ==> g.dom().contains(#[trigger] q[t])) by {
            assert(forall|t: int| 0 <= t < q.len() ==> q[t] == p[t + 1]);
        }
        lemma_path_descends(g, o, q);
        assert(q.last() == p.last());
    }
}

/// A successful resolution proves the reachable part of the graph acyclic: no
/// dependency cycle is reachable from any requested task. (A cycle through
/// `c` reachable from request root `r` would need `q` from `r` to `c` and a
/// closed path `p` from `c` to itself.)
pub proof fn lemma_no_reachable_cycle(
    g: Map<Seq<char>, TaskView>,
    names: Seq<Seq<char>>,
    o: Seq<Seq<char>>,
    strict: bool,
    q: Seq<Seq<char>>,
    p: Seq<Seq<char>>,
)
    requires
        g.dom().finite(),
        resolve_spec(g, visit_frames(names), init_state(), strict) == Ok::<
            Seq<Seq<char>>,
            ResolveError,
        >(o),
        names.contains(q.first()),
        is_path(g, q),
        q.last() == p.first(),
        is_path(g, p),
        p.len() >= 2,
    ensures
        p.first() != p.last(),
{
    lemma_order_sound(g, names, o, strict);
    if p.first() == p.last() {
        // every task on the closed path has an outgoing edge, so it exists
        assert forall|k: int| 0 <= k < p.len() implies g.dom().contains(#[trigger] p[k]) by {
            if k < p.len() - 1 {
                assert(edge(g, p[k], p[k + 1]));
            } else {
                assert(p[k] == p.first());
                assert(edge(g, p[0], p[1]));
            }
        }
        // tasks along the access path exist too: each has an outgoing edge,
        // and the last one is on the closed path
        assert forall|k: int| 0 <= k < q.len() implies g.dom().contains(#[trigger] q[k]) by {
            if k < q.len() - 1 {
                assert(edge(g, q[k], q[k + 1]));
            } else {
                assert(q[k] == q.last());
                assert(q.last() == p.first());
            }
        }
        assert(g.dom().contains(q.first()));
        assert(o.contains(q.first()));
        lemma_path_descends(g, o, q);
        assert(o.contains(p.first()));
        lemma_path_descends(g, o, p);
        assert(o.index_of(p.last()) < o.index_of(p.first()));
        assert(false);
    }
}


/// `b` is reachable from one of the `roots`; a root reaches itself.
pub open spec fn reachable_from(
    g: Map<Seq<char>, TaskView>,
    roots: Seq<Seq<char>>,
    b: Seq<char>,
) -> bool {
    exists|q: Seq<Seq<char>>|
        is_path(g, q) && roots.contains(q.first()) && #[trigger] q.last() == b
}

/// Every pending frame names a task reachable from the roots.
spec fn frames_reach(
    g: Map<Seq<char>, TaskView>,
    pend: Seq<FrameView>,
    roots: Seq<Seq<char>>,
) -> bool {
    forall|k: int|
        0 <= k < pend.len() ==> match #[trigger] pend[k] {
            FrameView::Visit(n) => reachable_from(g, roots, n),
            FrameView::Finish(n) => reachable_from(g, roots, n),
        }
}

/// Reachability extends along a dependency edge.
proof fn lemma_reach_step(
    g: Map<Seq<char>, TaskView>,
    roots: Seq<Seq<char>>,
    a: Seq<char>,
    b: Seq<char>,
)
    requires
        reachable_from(g, roots, a),
        edge(g, a, b),
    ensures
        reachable_from(g, roots, b),
{
    let q = choose|q: Seq<Seq<char>>|
        is_path(g, q) && roots.contains(q.first()) && #[trigger] q.last() == a;
    let q2 = q.push(b);
    assert(is_path(g, q2)) by {
        assert forall|t: int| 0 <= t < q2.len() - 1 implies edge(g, #[trigger] q2[t], q2[t + 1]) by {
            if t < q.len() - 1 {
                assert(q2[t] == q[t]);
                assert(q2[t + 1] == q[t + 1]);
            } else {
                assert(q2[t] == q.last());
                assert(q2[t + 1] == b);
            }
        }
    }
    assert(q2.first() == q.first());
    assert(q2.last() == b);
}

/// When strict resolution reports a missing task, that task is absent from
/// the graph and reachable from the roots the pending frames came from.
proof fn lemma_not_found_reachable(
    g: Map<Seq<char>, TaskView>,
    pend: Seq<FrameView>,
    st: ResolveState,
    strict: bool,
    roots: Seq<Seq<char>>,
)
    requires
        g.dom().finite(),
        frames_reach(g, pend, roots),
    ensures
        ({
            let r = resolve_spec(g, pend, st, strict);
            r matches Err(ResolveError::NotFound(n)) ==> !g.dom().contains(n) && reachable_from(
                g,
                roots,
                n,
            )
        }),
    decreases unmarked(g, st), pend.len(),
{
    if pend.len() == 0 {
    } else {
        match pend[0] {
            FrameView::Visit(n) => {
                if st.order.contains(n) {
                    assert(frames_reach(g, pend.drop_first(), roots)) by {
                        assert(forall|k: int|
                            0 <= k < pend.drop_first().len() ==> pend.drop_first()[k] == pend[k
                                + 1]);
                    }
                    lemma_not_found_reachable(g, pend.drop_first(), st, strict, roots);
                } else if st.in_prog.contains(n) {
                } else if !g.dom().contains(n) {
                    if !strict {
                        assert(frames_reach(g, pend.drop_first(), roots)) by {
                            assert(forall|k: int|
                                0 <= k < pend.drop_first().len() ==> pend.drop_first()[k] == pend[k
                                    + 1]);
                        }
                        lemma_not_found_reachable(g, pend.drop_first(), st, strict, roots);
                    }
                } else {
                    let deps = deps_of(g, n);
                    let vis = visit_frames(deps);
                    let pend2 = vis + seq![FrameView::Finish(n)] + pend.drop_first();
                    let st2 = ResolveState { order: st.order, in_prog: st.in_prog.push(n) };
                    assert(frames_reach(g, pend2, roots)) by {
                        assert forall|k: int| 0 <= k < pend2.len() implies match #[trigger] pend2[k] {
                            FrameView::Visit(m) => reachable_from(g, roots, m),
                            FrameView::Finish(m) => reachable_from(g, roots, m),
                        } by {
                            if k < deps.len() {
                                assert(pend2[k] == vis[k]);
                                assert(vis[k] == FrameView::Visit(deps[k]));
                                assert(edge(g, n, deps[k]));
                                lemma_reach_step(g, roots, n, deps[k]);
                            } else if k == deps.len() {
                                assert(pend2[k] == FrameView::Finish(n));
                            } else {
                                assert(pend2[k] == pend.drop_first()[k - deps.len() - 1]);
                                assert(pend2[k] == pend[k - deps.len()]);
                            }
                        }
                    }
                    lemma_visit_marks(g, st, n);
                    lemma_not_found_reachable(g, pend2, st2, strict, roots);
                }
            },
            FrameView::Finish(n) => {
                if st.in_prog.len() > 0 && st.in_prog.last() == n {
                    let st2 = ResolveState {
                        order: st.order.push(n),
                        in_prog: st.in_prog.drop_last(),
                    };
                    assert(frames_reach(g, pend.drop_first(), roots)) by {
                        assert(forall|k: int|
                            0 <= k < pend.drop_first().len() ==> pend.drop_first()[k] == pend[k
                                + 1]);
                    }
                    lemma_finish_marks(g, st, n);
                    lemma_not_found_reachable(g, pend.drop_first(), st2, strict, roots);
                }
            },
        }
    }
}

/// A dependency cycle reachable from a requested task makes resolution fail;
/// when every task reachable from the request exists in the graph, it fails
/// precisely with the circular-dependency error. The cycle is the closed
/// path `p`, reached from a requested task over `q`.
pub proof fn lemma_reachable_cycle_reported(
    g: Map<Seq<char>, TaskView>,
    names: Seq<Seq<char>>,
    q: Seq<Seq<char>>,
    p: Seq<Seq<char>>,
)
    requires
        g.dom().finite(),
        is_path(g, q),
        names.contains(q.first()),
        q.last() == p.first(),
        is_path(g, p),
        p.len() >= 2,
        p.first() == p.last(),
        forall|qq: Seq<Seq<char>>|
            is_path(g, qq) && names.contains(qq.first()) ==> g.dom().contains(#[trigger] qq.last()),
    ensures
        resolve_spec(g, visit_frames(names), init_state(), true) matches Err(
            ResolveError::Circular(_),
        ),
{
    let r = resolve_spec(g, visit_frames(names), init_state(), true);
    match r {
        Ok(o) => {
            lemma_no_reachable_cycle(g, names, o, true, q, p);
            assert(false);
        },
        Err(e) => {
            match e {
                ResolveError::NotFound(n) => {
                    let pend = visit_frames(names);
                    assert(frames_reach(g, pend, names)) by {
                        assert forall|k: int| 0 <= k < pend.len() implies match #[trigger] pend[k] {
                            FrameView::Visit(m) => reachable_from(g, names, m),
                            FrameView::Finish(m) => reachable_from(g, names, m),
                        } by {
                            assert(pend[k] == FrameView::Visit(names[k]));
                            let q1 = seq![names[k]];
                            assert(is_path(g, q1));
                            assert(q1.first() == names[k]);
                            assert(names.contains(q1.first()));
                            assert(q1.last() == names[k]);
                        }
                    }
                    lemma_not_found_reachable(g, pend, init_state(), true, names);
                    let qq = choose|qq: Seq<Seq<char>>|
                        is_path(g, qq) && names.contains(qq.first()) && #[trigger] qq.last() == n;
                    assert(g.dom().contains(n));
                    assert(false);
                },
                ResolveError::Circular(_) => {},
            }
        },
    }
}



/// The position of the first finish frame at or after `k`; the stack length
/// when there is none.
spec fn first_finish_from(pend: Seq<FrameView>, k: int) -> int
    decreases pend.len() - k,
{
    if k < 0 || k >= pend.len() {
        pend.len() as int
    } else {
        match pend[k] {
            FrameView::Finish(_) => k,
            FrameView::Visit(_) => first_finish_from(pend, k + 1),
        }
    }
}

/// The name a frame carries.
spec fn frame_name(f: FrameView) -> Seq<char> {
    match f {
        FrameView::Visit(n) => n,
        FrameView::Finish(n) => n,
    }
}

/// Every pending visit frame's task is a declared dependency of the finish
/// frame that follows it, when one does: the task whose dependencies the
/// traversal is currently resolving.
spec fn owners_ok(g: Map<Seq<char>, TaskView>, pend: Seq<FrameView>) -> bool {
    forall|k: int|
        0 <= k < pend.len() && (#[trigger] pend[k]) is Visit ==> {
            let f = first_finish_from(pend, k + 1);
            f < pend.len() ==> edge(g, frame_name(pend[f]), pend[k]->Visit_0)
        }
}

/// Consecutive tasks of the in-progress chain are joined by dependency edges.
spec fn chain_edges(g: Map<Seq<char>, TaskView>, in_prog: Seq<Seq<char>>) -> bool {
    forall|i: int| 0 <= i < in_prog.len() - 1 ==> edge(g, #[trigger] in_prog[i], in_prog[i + 1])
}

proof fn lemma_fff_bounds(pend: Seq<FrameView>, k: int)
    requires
        0 <= k <= pend.len(),
    ensures
        k <= first_finish_from(pend, k) <= pend.len(),
        first_finish_from(pend, k) < pend.len() ==> pend[first_finish_from(pend, k)] matches FrameView::Finish(_),
        forall|t: int|
            k <= t < first_finish_from(pend, k) ==> (#[trigger] pend[t]) matches FrameView::Visit(_),
    decreases pend.len() - k,
{
    if k < pend.len() {
        match pend[k] {
            FrameView::Finish(_) => {},
            FrameView::Visit(_) => {
                lemma_fff_bounds(pend, k + 1);
            },
        }
    }
}

proof fn lemma_fff_drop(pend: Seq<FrameView>, t: int)
    requires
        pend.len() >= 1,
        0 <= t <= pend.len() - 1,
    ensures
        first_finish_from(pend.drop_first(), t) == first_finish_from(pend, t + 1) - 1,
    decreases pend.len() - t,
{
    if t < pend.len() - 1 {
        assert(pend.drop_first()[t] == pend[t + 1]);
        match pend[t + 1] {
            FrameView::Finish(_) => {},
            FrameView::Visit(_) => {
                lemma_fff_drop(pend, t + 1);
            },
        }
    }
}

proof fn lemma_fff_concat(a: Seq<FrameView>, b: Seq<FrameView>, i: int)
    requires
        a.len() <= i <= a.len() + b.len(),
    ensures
        first_finish_from(a + b, i) == a.len() + first_finish_from(b, i - a.len()),
    decreases a.len() + b.len() - i,
{
    if i < a.len() + b.len() {
        assert((a + b)[i] == b[i - a.len()]);
        match b[i - a.len()] {
            FrameView::Finish(_) => {},
            FrameView::Visit(_) => {
                lemma_fff_concat(a, b, i + 1);
            },
        }
    }
}

/// In a block of visit frames followed by a finish frame, the finish frame is
/// the first one found from any position in the block.
proof fn lemma_fff_visit_block(vis: Seq<FrameView>, rest: Seq<FrameView>, t: int)
    requires
        0 <= t <= vis.len(),
        forall|k: int| 0 <= k < vis.len() ==> (#[trigger] vis[k]) matches FrameView::Visit(_),
        rest.len() > 0,
        rest[0] matches FrameView::Finish(_),
    ensures
        first_finish_from(vis + rest, t) == vis.len(),
    decreases vis.len() - t,
{
    if t < vis.len() {
        assert((vis + rest)[t] == vis[t]);
        lemma_fff_visit_block(vis, rest, t + 1);
    } else {
        assert((vis + rest)[t] == rest[0]);
    }
}

/// The first finish frame of the stack carries the innermost in-progress
/// task's name.
proof fn lemma_first_finish_is_innermost(pend: Seq<FrameView>, st: ResolveState)
    requires
        chain_ok(pend, st),
        first_finish_from(pend, 0) < pend.len(),
    ensures
        st.in_prog.len() > 0,
        frame_name(pend[first_finish_from(pend, 0)]) == st.in_prog.last(),
    decreases pend.len(),
{
    let f = first_finish_from(pend, 0);
    lemma_fff_bounds(pend, 0);
    if f == 0 {
        let n = frame_name(pend[0]);
        assert(finish_names(pend) == seq![n] + finish_names(pend.drop_first()));
        assert(st.in_prog.reverse().len() > 0);
        assert(st.in_prog.reverse()[0] == st.in_prog.last());
        assert((seq![n] + finish_names(pend.drop_first()))[0] == n);
    } else {
        assert(pend[0] matches FrameView::Visit(_));
        assert(finish_names(pend) == finish_names(pend.drop_first()));
        lemma_fff_drop(pend, 0);
        lemma_first_finish_is_innermost(pend.drop_first(), st);
        assert(pend.drop_first()[f - 1] == pend[f]);
    }
}

/// When the stack holds no finish frame, nothing is in progress.
proof fn lemma_no_finish_no_progress(pend: Seq<FrameView>, st: ResolveState)
    requires
        chain_ok(pend, st),
        first_finish_from(pend, 0) == pend.len(),
    ensures
        st.in_prog.len() == 0,
    decreases pend.len(),
{
    if pend.len() > 0 {
        lemma_fff_bounds(pend, 0);
        assert(pend[0] matches FrameView::Visit(_));
        assert(finish_names(pend) == finish_names(pend.drop_first()));
        lemma_fff_drop(pend, 0);
        lemma_no_finish_no_progress(pend.drop_first(), st);
    } else {
        assert(finish_names(pend) =~= Seq::<Seq<char>>::empty());
        assert(st.in_prog.reverse().len() == 0);
    }
}

/// When the traversal reports a dependency cycle, one exists: a closed
/// dependency path through the reported task, which is reachable from the
/// roots the pending frames came from.
#[verifier::rlimit(100)]
proof fn lemma_circular_sound(
    g: Map<Seq<char>, TaskView>,
    pend: Seq<FrameView>,
    st: ResolveState,
    strict: bool,
    roots: Seq<Seq<char>>,
)
    requires
        g.dom().finite(),
        chain_ok(pend, st),
        owners_ok(g, pend),
        chain_edges(g, st.in_prog),
        frames_reach(g, pend, roots),
    ensures
        ({
            let r = resolve_spec(g, pend, st, strict);
            r matches Err(ResolveError::Circular(n)) ==> reachable_from(g, roots, n) && exists|
                p: Seq<Seq<char>>,
            | is_path(g, p) && p.len() >= 2 && p.first() == n && #[trigger] p.last() == n
        }),
    decreases unmarked(g, st), pend.len(),
{
    if pend.len() == 0 {
    } else {
        match pend[0] {
            FrameView::Visit(n) => {
                if st.order.contains(n) {
                    lemma_circular_skip(g, pend, st, strict, roots);
                } else if st.in_prog.contains(n) {
                    // the cycle: follow the in-progress chain from n to the
                    // innermost task, whose dependency n is
                    let i = choose|i: int| 0 <= i < st.in_prog.len() && st.in_prog[i] == n;
                    let f = first_finish_from(pend, 1);
                    lemma_fff_bounds(pend, 1);
                    assert(first_finish_from(pend, 0) == f);
                    if f == pend.len() {
                        lemma_no_finish_no_progress(pend, st);
                        assert(false);
                    }
                    lemma_first_finish_is_innermost(pend, st);
                    let m = st.in_prog.last();
                    assert(edge(g, m, n)) by {
                        assert(frame_name(pend[f]) == m);
                    }
                    let p0 = st.in_prog.subrange(i, st.in_prog.len() as int);
                    let p = p0.push(n);
                    assert(is_path(g, p)) by {
                        assert forall|t: int| 0 <= t < p.len() - 1 implies edge(
                            g,
                            #[trigger] p[t],
                            p[t + 1],
                        ) by {
                            if t < p0.len() - 1 {
                                assert(p[t] == st.in_prog[i + t]);
                                assert(p[t + 1] == st.in_prog[i + t + 1]);
                            } else {
                                assert(p[t] == p0.last());
                                assert(p0.last() == m);
                                assert(p[t + 1] == n);
                            }
                        }
                    }
                    assert(p.first() == st.in_prog[i]);
                    assert(p.last() == n);
                    assert(p.len() >= 2);
                } else if !g.dom().contains(n) {
                    if !strict {
                        lemma_circular_skip(g, pend, st, strict, roots);
                    }
                } else {
                    let deps = deps_of(g, n);
                    let vis = visit_frames(deps);
                    let mid = seq![FrameView::Finish(n)] + pend.drop_first();
                    let pend2 = vis + seq![FrameView::Finish(n)] + pend.drop_first();
                    let st2 = ResolveState { order: st.order, in_prog: st.in_prog.push(n) };
                    assert(pend2 =~= vis + mid);
                    // the stack grows by the dependencies of n and its own
                    // finish frame; every structural invariant carries over
                    assert(forall|k: int|
                        0 <= k < vis.len() ==> (#[trigger] vis[k]) == FrameView::Visit(deps[k]));
                    assert(chain_ok(pend2, st2)) by {
                        lemma_finish_names_visits(deps);
                        lemma_finish_names_concat(vis, mid);
                        lemma_finish_names_concat(seq![FrameView::Finish(n)], pend.drop_first());
                        assert(finish_names(seq![FrameView::Finish(n)]) =~= seq![n]) by {
                            let s1 = seq![FrameView::Finish(n)];
                            assert(s1.drop_first() =~= Seq::<FrameView>::empty());
                            assert(finish_names(Seq::<FrameView>::empty())
                                =~= Seq::<Seq<char>>::empty());
                            assert(s1[0] == FrameView::Finish(n));
                            assert(finish_names(s1) == seq![n] + finish_names(s1.drop_first()));
                            assert(seq![n] + Seq::<Seq<char>>::empty() =~= seq![n]);
                        }
                        assert(finish_names(pend) == finish_names(pend.drop_first()));
                        assert(st2.in_prog.reverse() =~= seq![n] + st.in_prog.reverse());
                        assert(finish_names(pend2) =~= seq![n] + finish_names(pend.drop_first()));
                    }
                    assert(chain_edges(g, st2.in_prog)) by {
                        if st.in_prog.len() > 0 {
                            let f = first_finish_from(pend, 1);
                            lemma_fff_bounds(pend, 1);
                            assert(first_finish_from(pend, 0) == f);
                            if f == pend.len() {
                                lemma_no_finish_no_progress(pend, st);
                                assert(false);
                            }
                            lemma_first_finish_is_innermost(pend, st);
                            assert(edge(g, st.in_prog.last(), n)) by {
                                assert(frame_name(pend[f]) == st.in_prog.last());
                            }
                        }
                        assert forall|t: int| 0 <= t < st2.in_prog.len() - 1 implies edge(
                            g,
                            #[trigger] st2.in_prog[t],
                            st2.in_prog[t + 1],
                        ) by {
                            if t < st.in_prog.len() - 1 {
                                assert(st2.in_prog[t] == st.in_prog[t]);
                                assert(st2.in_prog[t + 1] == st.in_prog[t + 1]);
                            } else {
                                assert(st2.in_prog[t] == st.in_prog.last());
                                assert(st2.in_prog[t + 1] == n);
                            }
                        }
                    }
                    assert(owners_ok(g, pend2)) by {
                        assert forall|k: int|
                            0 <= k < pend2.len() && (#[trigger] pend2[k]) is Visit implies {
                            let f = first_finish_from(pend2, k + 1);
                            f < pend2.len() ==> edge(g, frame_name(pend2[f]), pend2[k]->Visit_0)
                        } by {
                            let d = pend2[k]->Visit_0;
                            if k < vis.len() {
                                lemma_fff_visit_block(vis, mid, k + 1);
                                assert(first_finish_from(pend2, k + 1) == vis.len());
                                assert(pend2[vis.len() as int] == FrameView::Finish(n));
                                assert(d == deps[k]);
                                assert(edge(g, n, d));
                            } else if k > vis.len() {
                                let ko = k - vis.len();
                                assert(pend2[k] == pend[ko]);
                                lemma_fff_concat(
                                    vis + seq![FrameView::Finish(n)],
                                    pend.drop_first(),
                                    k + 1,
                                );
                                assert(pend2 =~= (vis + seq![FrameView::Finish(n)])
                                    + pend.drop_first());
                                lemma_fff_drop(pend, ko);
                                let fr = first_finish_from(pend.drop_first(), ko);
                                lemma_fff_bounds(pend.drop_first(), ko);
                                assert(first_finish_from(pend2, k + 1) == vis.len() + 1 + fr);
                                assert(first_finish_from(pend, ko + 1) == fr + 1);
                                if fr < pend.drop_first().len() {
                                    assert(pend2[vis.len() + 1 + fr] == pend.drop_first()[fr]);
                                    assert(pend.drop_first()[fr] == pend[fr + 1]);
                                }
                            }
                        }
                    }
                    assert(frames_reach(g, pend2, roots)) by {
                        assert forall|k: int| 0 <= k < pend2.len() implies match #[trigger] pend2[k] {
                            FrameView::Visit(m) => reachable_from(g, roots, m),
                            FrameView::Finish(m) => reachable_from(g, roots, m),
                        } by {
                            if k < deps.len() {
                                assert(pend2[k] == vis[k]);
                                assert(edge(g, n, deps[k]));
                                lemma_reach_step(g, roots, n, deps[k]);
                            } else if k == deps.len() {
                                assert(pend2[k] == FrameView::Finish(n));
                            } else {
                                assert(pend2[k] == pend.drop_first()[k - deps.len() - 1]);
                                assert(pend2[k] == pend[k - deps.len()]);
                            }
                        }
                    }
                    lemma_visit_marks(g, st, n);
                    lemma_circular_sound(g, pend2, st2, strict, roots);
                }
            },
            FrameView::Finish(n) => {
                // with the chain in step with the stack, the guard holds
                assert(finish_names(pend) == seq![n] + finish_names(pend.drop_first()));
                assert(st.in_prog.reverse().len() > 0);
                assert(st.in_prog.len() > 0);
                assert(st.in_prog.reverse()[0] == st.in_prog.last());
                assert((seq![n] + finish_names(pend.drop_first()))[0] == n);
                assert(st.in_prog.last() == n);
                let st2 = ResolveState {
                    order: st.order.push(n),
                    in_prog: st.in_prog.drop_last(),
                };
                assert(chain_ok(pend.drop_first(), st2)) by {
                    assert(st.in_prog =~= st2.in_prog.push(n));
                    assert(st.in_prog.reverse() =~= seq![n] + st2.in_prog.reverse());
                    assert(finish_names(pend.drop_first()) =~= st2.in_prog.reverse()) by {
                        assert forall|i: int|
                            0 <= i < finish_names(pend.drop_first()).len() implies finish_names(
                            pend.drop_first(),
                        )[i] == st2.in_prog.reverse()[i] by {
                            assert(finish_names(pend)[i + 1] == finish_names(pend.drop_first())[i]);
                            assert(st.in_prog.reverse()[i + 1] == st2.in_prog.reverse()[i]);
                        }
                    }
                }
                assert(chain_edges(g, st2.in_prog)) by {
                    assert forall|t: int| 0 <= t < st2.in_prog.len() - 1 implies edge(
                        g,
                        #[trigger] st2.in_prog[t],
                        st2.in_prog[t + 1],
                    ) by {
                        assert(st2.in_prog[t] == st.in_prog[t]);
                        assert(st2.in_prog[t + 1] == st.in_prog[t + 1]);
                    }
                }
                assert(owners_ok(g, pend.drop_first())) by {
                    assert forall|k: int|
                        0 <= k < pend.drop_first().len() && (#[trigger] pend.drop_first()[k]) is
                        Visit implies {
                        let f = first_finish_from(pend.drop_first(), k + 1);
                        f < pend.drop_first().len() ==> edge(
                            g,
                            frame_name(pend.drop_first()[f]),
                            pend.drop_first()[k]->Visit_0,
                        )
                    } by {
                        let d = pend.drop_first()[k]->Visit_0;
                        assert(pend.drop_first()[k] == pend[k + 1]);
                        lemma_fff_drop(pend, k + 1);
                        let f = first_finish_from(pend.drop_first(), k + 1);
                        lemma_fff_bounds(pend.drop_first(), k + 1);
                        assert(first_finish_from(pend, k + 2) == f + 1);
                        if f < pend.drop_first().len() {
                            assert(pend.drop_first()[f] == pend[f + 1]);
                        }
                    }
                }
                assert(frames_reach(g, pend.drop_first(), roots)) by {
                    assert(forall|k: int|
                        0 <= k < pend.drop_first().len() ==> pend.drop_first()[k] == pend[k + 1]);
                }
                lemma_finish_marks(g, st, n);
                lemma_circular_sound(g, pend.drop_first(), st2, strict, roots);
            },
        }
    }
}

/// A skipped visit frame preserves the structural invariants of
/// `lemma_circular_sound` and the result.
proof fn lemma_circular_skip(
    g: Map<Seq<char>, TaskView>,
    pend: Seq<FrameView>,
    st: ResolveState,
    strict: bool,
    roots: Seq<Seq<char>>,
)
    requires
        g.dom().finite(),
        pend.len() > 0,
        pend[0] matches FrameView::Visit(n) && (st.order.contains(n) || (!st.in_prog.contains(n)
            && !g.dom().contains(n) && !strict)),
        chain_ok(pend, st),
        owners_ok(g, pend),
        chain_edges(g, st.in_prog),
        frames_reach(g, pend, roots),
    ensures
        ({
            let r = resolve_spec(g, pend, st, strict);
            r matches Err(ResolveError::Circular(n)) ==> reachable_from(g, roots, n) && exists|
                p: Seq<Seq<char>>,
            | is_path(g, p) && p.len() >= 2 && p.first() == n && #[trigger] p.last() == n
        }),
    decreases unmarked(g, st), pend.len(), 1int,
{
    assert(resolve_spec(g, pend, st, strict) == resolve_spec(g, pend.drop_first(), st, strict));
    assert(chain_ok(pend.drop_first(), st)) by {
        assert(finish_names(pend) == finish_names(pend.drop_first()));
    }
    assert(owners_ok(g, pend.drop_first())) by {
        assert forall|k: int|
            0 <= k < pend.drop_first().len() && (#[trigger] pend.drop_first()[k]) is
            Visit implies {
            let f = first_finish_from(pend.drop_first(), k + 1);
            f < pend.drop_first().len() ==> edge(
                g,
                frame_name(pend.drop_first()[f]),
                pend.drop_first()[k]->Visit_0,
            )
        } by {
            let d = pend.drop_first()[k]->Visit_0;
            assert(pend.drop_first()[k] == pend[k + 1]);
            lemma_fff_drop(pend, k + 1);
            let f = first_finish_from(pend.drop_first(), k + 1);
            lemma_fff_bounds(pend.drop_first(), k + 1);
            assert(first_finish_from(pend, k + 2) == f + 1);
            if f < pend.drop_first().len() {
                assert(pend.drop_first()[f] == pend[f + 1]);
            }
        }
    }
    assert(frames_reach(g, pend.drop_first(), roots)) by {
        assert(forall|k: int|
            0 <= k < pend.drop_first().len() ==> pend.drop_first()[k] == pend[k + 1]);
    }
    lemma_circular_sound(g, pend.drop_first(), st, strict, roots);
}

/// Success is owed: on a graph where everything reachable from the request
/// exists and no reachable dependency cycle closes, resolution succeeds.
pub proof fn lemma_clean_graph_resolves(g: Map<Seq<char>, TaskView>, names: Seq<Seq<char>>)
    requires
        g.dom().finite(),
        forall|qq: Seq<Seq<char>>|
            is_path(g, qq) && names.contains(qq.first()) ==> g.dom().contains(#[trigger] qq.last()),
        forall|q: Seq<Seq<char>>, p: Seq<Seq<char>>|
            #![trigger q.last(), p.first()]
            !(is_path(g, q) && names.contains(q.first()) && q.last() == p.first() && is_path(g, p)
                && p.len() >= 2 && p.first() == p.last()),
    ensures
        resolve_spec(g, visit_frames(names), init_state(), true) is Ok,
{
    let pend = visit_frames(names);
    let r = resolve_spec(g, pend, init_state(), true);
    assert(frames_reach(g, pend, names)) by {
        assert forall|k: int| 0 <= k < pend.len() implies match #[trigger] pend[k] {
            FrameView::Visit(m) => reachable_from(g, names, m),
            FrameView::Finish(m) => reachable_from(g, names, m),
        } by {
            assert(pend[k] == FrameView::Visit(names[k]));
            let q1 = seq![names[k]];
            assert(is_path(g, q1));
            assert(names.contains(q1.first()));
            assert(q1.last() == names[k]);
        }
    }
    match r {
        Ok(_) => {},
        Err(e) => {
            match e {
                ResolveError::NotFound(n) => {
                    lemma_not_found_reachable(g, pend, init_state(), true, names);
                    let qq = choose|qq: Seq<Seq<char>>|
                        is_path(g, qq) && names.contains(qq.first()) && #[trigger] qq.last() == n;
                    assert(g.dom().contains(n));
                    assert(false);
                },
                ResolveError::Circular(n) => {
                    assert(chain_ok(pend, init_state())) by {
                        lemma_finish_names_visits(names);
                        assert(init_state().in_prog.reverse() =~= Seq::<Seq<char>>::empty());
                    }
                    assert(owners_ok(g, pend)) by {
                        assert forall|k: int|
                            0 <= k < pend.len() && (#[trigger] pend[k]) is Visit implies {
                            let f = first_finish_from(pend, k + 1);
                            f < pend.len() ==> edge(g, frame_name(pend[f]), pend[k]->Visit_0)
                        } by {
                            lemma_fff_bounds(pend, k + 1);
                            let f = first_finish_from(pend, k + 1);
                            if f < pend.len() {
                                assert(pend[f] == FrameView::Visit(names[f]));
                                assert(false);
                            }
                        }
                    }
                    lemma_circular_sound(g, pend, init_state(), true, names);
                    let q = choose|q: Seq<Seq<char>>|
                        is_path(g, q) && names.contains(q.first()) && #[trigger] q.last() == n;
                    let p = choose|p: Seq<Seq<char>>|
                        is_path(g, p) && p.len() >= 2 && p.first() == n && #[trigger] p.last()
                            == n;
                    assert(false);
                },
            }
        },
    }
}



/// The resolver's guarantees at the configuration level, as
/// `Config::get_execution_order` exposes them: a successfully computed order
/// lists only tasks of the graph, lists each at most once, places every
/// dependency strictly before its dependent, and holds every requested task.
pub proof fn lemma_config_order_sound(
    c: crate::config::Config,
    names: Seq<Seq<char>>,
    o: Seq<Seq<char>>,
)
    requires
        resolve_spec(c.graph(), visit_frames(names), init_state(), true) == Ok::<
            Seq<Seq<char>>,
            ResolveError,
        >(o),
    ensures
        no_dups(o),
        forall|i: int| 0 <= i < o.len() ==> c.graph().dom().contains(#[trigger] o[i]),
        deps_placed(c.graph(), o),
        forall|i: int| 0 <= i < names.len() ==> o.contains(#[trigger] names[i]),
{
    lemma_graph_of_finite(c.tasks@);
    lemma_order_sound(c.graph(), names, o, true);
}

/// Success is owed at the configuration level: when every task reachable from
/// the request exists and no reachable cycle closes, the order is computed.
pub proof fn lemma_config_order_complete(c: crate::config::Config, names: Seq<Seq<char>>)
    requires
        forall|qq: Seq<Seq<char>>|
            is_path(c.graph(), qq) && names.contains(qq.first()) ==> c.graph().dom().contains(
                #[trigger] qq.last(),
            ),
        forall|q: Seq<Seq<char>>, p: Seq<Seq<char>>|
            #![trigger q.last(), p.first()]
            !(is_path(c.graph(), q) && names.contains(q.first()) && q.last() == p.first()
                && is_path(c.graph(), p) && p.len() >= 2 && p.first() == p.last()),
    ensures
        resolve_spec(c.graph(), visit_frames(names), init_state(), true) is Ok,
{
    lemma_graph_of_finite(c.tasks@);
    lemma_clean_graph_resolves(c.graph(), names);
}



/// In a successful traversal, every placed task is reachable from the roots
/// the pending frames came from.
proof fn lemma_order_members_reachable(
    g: Map<Seq<char>, TaskView>,
    pend: Seq<FrameView>,
    st: ResolveState,
    strict: bool,
    roots: Seq<Seq<char>>,
)
    requires
        g.dom().finite(),
        frames_reach(g, pend, roots),
        forall|i: int|
            0 <= i < st.order.len() ==> reachable_from(g, roots, #[trigger] st.order[i]),
    ensures
        ({
            let r = resolve_spec(g, pend, st, strict);
            r matches Ok(o) ==> forall|i: int|
                0 <= i < o.len() ==> reachable_from(g, roots, #[trigger] o[i])
        }),
    decreases unmarked(g, st), pend.len(),
{
    if pend.len() == 0 {
    } else {
        match pend[0] {
            FrameView::Visit(n) => {
                if st.order.contains(n) || (!st.in_prog.contains(n) && !g.dom().contains(n)
                    && !strict) {
                    assert(frames_reach(g, pend.drop_first(), roots)) by {
                        assert(forall|k: int|
                            0 <= k < pend.drop_first().len() ==> pend.drop_first()[k] == pend[k
                                + 1]);
                    }
                    lemma_order_members_reachable(g, pend.drop_first(), st, strict, roots);
                } else if !st.in_prog.contains(n) && g.dom().contains(n) {
                    let deps = deps_of(g, n);
                    let vis = visit_frames(deps);
                    let pend2 = vis + seq![FrameView::Finish(n)] + pend.drop_first();
                    let st2 = ResolveState { order: st.order, in_prog: st.in_prog.push(n) };
                    assert(frames_reach(g, pend2, roots)) by {
                        assert forall|k: int| 0 <= k < pend2.len() implies match #[trigger] pend2[k] {
                            FrameView::Visit(m) => reachable_from(g, roots, m),
                            FrameView::Finish(m) => reachable_from(g, roots, m),
                        } by {
                            if k < deps.len() {
                                assert(pend2[k] == vis[k]);
                                assert(vis[k] == FrameView::Visit(deps[k]));
                                assert(edge(g, n, deps[k]));
                                lemma_reach_step(g, roots, n, deps[k]);
                            } else if k == deps.len() {
                                assert(pend2[k] == FrameView::Finish(n));
                            } else {
                                assert(pend2[k] == pend.drop_first()[k - deps.len() - 1]);
                                assert(pend2[k] == pend[k - deps.len()]);
                            }
                        }
                    }
                    lemma_visit_marks(g, st, n);
                    lemma_order_members_reachable(g, pend2, st2, strict, roots);
                }
            },
            FrameView::Finish(n) => {
                if st.in_prog.len() > 0 && st.in_prog.last() == n {
                    let st2 = ResolveState {
                        order: st.order.push(n),
                        in_prog: st.in_prog.drop_last(),
                    };
                    assert(frames_reach(g, pend.drop_first(), roots)) by {
                        assert(forall|k: int|
                            0 <= k < pend.drop_first().len() ==> pend.drop_first()[k] == pend[k
                                + 1]);
                    }
                    assert forall|i: int|
                        0 <= i < st2.order.len() implies reachable_from(
                        g,
                        roots,
                        #[trigger] st2.order[i],
                    ) by {
                        if i < st.order.len() {
                            assert(st2.order[i] == st.order[i]);
                        } else {
                            assert(st2.order[i] == n);
                        }
                    }
                    lemma_finish_marks(g, st, n);
                    lemma_order_members_reachable(g, pend.drop_first(), st2, strict, roots);
                }
            },
        }
    }
}

/// The computed order is exactly the requested tasks together with their
/// transitive dependency closure: every member of the order is reachable from
/// a requested name, and the end of every dependency path from a requested
/// name, all of whose tasks the graph holds, is a member of the order.
pub proof fn lemma_order_is_closure(
    g: Map<Seq<char>, TaskView>,
    names: Seq<Seq<char>>,
    o: Seq<Seq<char>>,
    strict: bool,
)
    requires
        g.dom().finite(),
        resolve_spec(g, visit_frames(names), init_state(), strict) == Ok::<
            Seq<Seq<char>>,
            ResolveError,
        >(o),
    ensures
        forall|i: int| 0 <= i < o.len() ==> reachable_from(g, names, #[trigger] o[i]),
        forall|q: Seq<Seq<char>>|
            is_path(g, q) && names.contains(q.first()) && (forall|k: int|
                0 <= k < q.len() ==> g.dom().contains(#[trigger] q[k])) ==> o.contains(
                #[trigger] q.last(),
            ),
{
    let pend = visit_frames(names);
    assert(frames_reach(g, pend, names)) by {
        assert forall|k: int| 0 <= k < pend.len() implies match #[trigger] pend[k] {
            FrameView::Visit(m) => reachable_from(g, names, m),
            FrameView::Finish(m) => reachable_from(g, names, m),
        } by {
            assert(pend[k] == FrameView::Visit(names[k]));
            let q1 = seq![names[k]];
            assert(is_path(g, q1));
            assert(names.contains(q1.first()));
            assert(q1.last() == names[k]);
        }
    }
    lemma_order_members_reachable(g, pend, init_state(), strict, names);
    assert(resolve_spec(g, pend, init_state(), strict) matches Ok(o2) && o2 == o);
    lemma_order_sound(g, names, o, strict);
    assert forall|q: Seq<Seq<char>>|
        is_path(g, q) && names.contains(q.first()) && (forall|k: int|
            0 <= k < q.len() ==> g.dom().contains(#[trigger] q[k])) implies o.contains(
        #[trigger] q.last(),
    ) by {
        let i = choose|i: int| 0 <= i < names.len() && names[i] == q.first();
        assert(g.dom().contains(q[0]));
        assert(o.contains(names[i]));
        lemma_path_descends(g, o, q);
    }
}



/// The closure law at the configuration level: an order computed by
/// `Config::get_execution_order` holds exactly the requested tasks together
/// with their transitive dependency closure.
pub proof fn lemma_config_order_closure(
    c: crate::config::Config,
    names: Seq<Seq<char>>,
    o: Seq<Seq<char>>,
)
    requires
        resolve_spec(c.graph(), visit_frames(names), init_state(), true) == Ok::<
            Seq<Seq<char>>,
            ResolveError,
        >(o),
    ensures
        forall|i: int| 0 <= i < o.len() ==> reachable_from(c.graph(), names, #[trigger] o[i]),
        forall|q: Seq<Seq<char>>|
            is_path(c.graph(), q) && names.contains(q.first()) && (forall|k: int|
                0 <= k < q.len() ==> c.graph().dom().contains(#[trigger] q[k])) ==> o.contains(
                #[trigger] q.last(),
            ),
{
    lemma_graph_of_finite(c.tasks@);
    lemma_order_is_closure(c.graph(), names, o, true);
}


} // verus!
