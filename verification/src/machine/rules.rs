//! The KN machine as a mathematical object: its states, its transitions
//! (the rules of García-Pérez and Nogueira, Fig. 3) and the invariant that
//! every reachable state keeps.
use std::rc::Rc;
use vstd::prelude::*;
use crate::term::{Term, closed, normal, scoped};

verus! {

/// A closure of the machine.
pub enum SClosure {
    /// A term together with the environment that gives its free variables
    /// their values; the last entry of the environment is variable 0.
    Proper { term: Term, env: Seq<SClosure> },
    /// The variable bound by the abstraction that was entered at this level
    /// (levels count from 1).
    Level { level: nat },
    /// A finished (normal) term, valid at the given level.
    Res { term: Term, level: nat },
}

/// A frame of the machine's stack.
pub enum SFrame {
    /// An argument that waits to be applied or evaluated.
    Closure { term: Term, env: Seq<SClosure> },
    /// The body under evaluation sits below an abstraction.
    Lambda,
    /// The function part of an application, already normal.
    Res { term: Term, level: nat },
}

/// A state of the machine: the closure under evaluation, the stack (its top
/// is the last element) and the current level.
pub struct MState {
    pub closure: SClosure,
    pub stack: Seq<SFrame>,
    pub level: nat,
}

/// The state in which the machine starts on `term` (rule 1).
pub open spec fn initial(term: Term) -> MState {
    MState {
        closure: SClosure::Proper { term, env: Seq::empty() },
        stack: Seq::empty(),
        level: 0,
    }
}

/// The machine has stopped: a result and nothing left on the stack.
pub open spec fn is_final(s: MState) -> bool {
    s.closure is Res && s.stack.len() == 0
}

/// One transition of the machine (rules 2 to 10). A final state, and a state
/// in which no rule applies, is left as it is.
pub open spec fn transition(s: MState) -> MState {
    match s.closure {
        SClosure::Proper { term, env } => match term {
            // rules 2 and 3: look the variable up; the environment grows to
            // the right, so index 0 is its last entry
            Term::Var { debruijn } => if debruijn < env.len() {
                MState { closure: env[env.len() - 1 - debruijn], ..s }
            } else {
                s
            },
            // rule 4: evaluate the function, keep the argument on the stack
            Term::App { func, arg } => MState {
                closure: SClosure::Proper { term: *func, env },
                stack: s.stack.push(SFrame::Closure { term: *arg, env }),
                level: s.level,
            },
            Term::Abs { body } => if s.stack.len() > 0 && s.stack.last() is Closure {
                // rule 5: beta-contraction, the argument extends the environment
                let top = s.stack.last();
                MState {
                    closure: SClosure::Proper {
                        term: *body,
                        env: env.push(
                            SClosure::Proper { term: top->Closure_term, env: top->Closure_env },
                        ),
                    },
                    stack: s.stack.drop_last(),
                    level: s.level,
                }
            } else if s.level < usize::MAX {
                // rule 6: no argument, go under the abstraction (the level
                // is a machine integer)
                MState {
                    closure: SClosure::Proper {
                        term: *body,
                        env: env.push(SClosure::Level { level: s.level + 1 }),
                    },
                    stack: s.stack.push(SFrame::Lambda),
                    level: s.level + 1,
                }
            } else {
                s
            },
        },
        // rule 7: a bound variable becomes a De Bruijn index
        SClosure::Level { level: n } => if 1 <= n <= s.level {
            MState {
                closure: SClosure::Res {
                    term: Term::Var { debruijn: (s.level - n) as usize },
                    level: s.level,
                },
                ..s
            }
        } else {
            s
        },
        SClosure::Res { term, level: l } => if s.stack.len() == 0 {
            s
        } else {
            let rest = s.stack.drop_last();
            match s.stack.last() {
                // rule 8: the head is normal, evaluate the pending argument
                SFrame::Closure { term: ft, env: fe } => MState {
                    closure: SClosure::Proper { term: ft, env: fe },
                    stack: rest.push(SFrame::Res { term, level: l }),
                    level: l,
                },
                // rule 9: rebuild the abstraction
                SFrame::Lambda => MState {
                    closure: SClosure::Res { term: Term::Abs { body: Rc::new(term) }, level: l },
                    stack: rest,
                    level: s.level,
                },
                // rule 10: rebuild the application
                SFrame::Res { term: ft, level: fl } => MState {
                    closure: SClosure::Res {
                        term: Term::App { func: Rc::new(ft), arg: Rc::new(term) },
                        level: fl,
                    },
                    stack: rest,
                    level: s.level,
                },
            }
        },
    }
}

/// The state after `n` transitions.
pub open spec fn run(s: MState, n: nat) -> MState
    decreases n,
{
    if n == 0 {
        s
    } else {
        transition(run(s, (n - 1) as nat))
    }
}

/// The machine, started on `term`, stops after finitely many transitions.
pub open spec fn halts(term: Term) -> bool {
    exists|n: nat| is_final(#[trigger] run(initial(term), n))
}

/// The term that the machine, started on `term`, stops with.
pub open spec fn machine_result(term: Term) -> Term {
    let n = choose|n: nat| is_final(#[trigger] run(initial(term), n));
    run(initial(term), n).closure->Res_term
}

// ---------------------------------------------------------------------------
// The invariant of the machine
// ---------------------------------------------------------------------------

/// Number of `Lambda` frames on a stack.
pub open spec fn lambdas(stack: Seq<SFrame>) -> nat
    decreases stack.len(),
{
    if stack.len() == 0 {
        0
    } else {
        lambdas(stack.drop_last()) + if stack.last() is Lambda {
            1nat
        } else {
            0nat
        }
    }
}

/// A closure is well formed at level `bound`: its term is scoped by its
/// environment, and its environment holds proper closures and levels from 1
/// to `bound`.
pub open spec fn wf_closure(c: SClosure, bound: nat) -> bool
    decreases c,
{
    match c {
        SClosure::Proper { term, env } => scoped(term, env.len()) && forall|i: int|
            0 <= i < env.len() ==> wf_closure(#[trigger] env[i], bound),
        SClosure::Level { level } => 1 <= level <= bound,
        SClosure::Res { .. } => false,
    }
}

/// The frame at position `i` of the stack is well formed with respect to the
/// frames below it.
pub open spec fn wf_frame(stack: Seq<SFrame>, i: int) -> bool {
    let below = stack.take(i);
    match stack[i] {
        SFrame::Closure { term, env } => wf_closure(
            SClosure::Proper { term, env },
            lambdas(below),
        ),
        // rule 6 pushes a Lambda only when no argument is waiting
        SFrame::Lambda => i > 0 ==> !(stack[i - 1] is Closure),
        SFrame::Res { term, level } => {
            &&& level == lambdas(below)
            &&& level <= usize::MAX
            &&& scoped(term, level)
            &&& normal(term)
            &&& !(term is Abs)
        },
    }
}

/// The invariant that every reachable state of the machine keeps.
pub open spec fn wf_state(s: MState) -> bool {
    &&& s.level <= usize::MAX
    &&& forall|i: int| 0 <= i < s.stack.len() ==> #[trigger] wf_frame(s.stack, i)
    &&& match s.closure {
        SClosure::Proper { .. } => wf_closure(s.closure, s.level) && s.level == lambdas(s.stack),
        SClosure::Level { level } => 1 <= level <= s.level && s.level == lambdas(s.stack),
        SClosure::Res { term, level } => {
            &&& level <= usize::MAX
            &&& scoped(term, lambdas(s.stack))
            &&& normal(term)
            &&& !(term is Abs) ==> level == lambdas(s.stack)
            &&& (term is Abs && s.stack.len() > 0) ==> !(s.stack.last() is Closure)
        },
    }
}

pub(crate) proof fn lemma_lambdas_push(stack: Seq<SFrame>, f: SFrame)
    ensures
        lambdas(stack.push(f)) == lambdas(stack) + if f is Lambda {
            1nat
        } else {
            0nat
        },
{
    assert(stack.push(f).drop_last() =~= stack);
}

pub(crate) proof fn lemma_lambdas_le_len(stack: Seq<SFrame>)
    ensures
        lambdas(stack) <= stack.len(),
    decreases stack.len(),
{
    if stack.len() > 0 {
        lemma_lambdas_le_len(stack.drop_last());
    }
}

pub(crate) proof fn lemma_wf_closure_mono(c: SClosure, b1: nat, b2: nat)
    requires
        wf_closure(c, b1),
        b1 <= b2,
    ensures
        wf_closure(c, b2),
    decreases c,
{
    if let SClosure::Proper { term, env } = c {
        assert forall|i: int| 0 <= i < env.len() implies wf_closure(#[trigger] env[i], b2) by {
            lemma_wf_closure_mono(env[i], b1, b2);
        }
    }
}

/// Pushing a frame keeps the frames below it well formed.
pub(crate) proof fn lemma_frames_push(stack: Seq<SFrame>, f: SFrame)
    requires
        forall|i: int| 0 <= i < stack.len() ==> #[trigger] wf_frame(stack, i),
        wf_frame(stack.push(f), stack.len() as int),
    ensures
        forall|i: int| 0 <= i < stack.len() + 1 ==> #[trigger] wf_frame(stack.push(f), i),
{
    let t = stack.push(f);
    assert forall|i: int| 0 <= i < stack.len() + 1 implies #[trigger] wf_frame(t, i) by {
        if i < stack.len() {
            assert(t.take(i) =~= stack.take(i));
            assert(wf_frame(stack, i));
        }
    }
}

/// Popping a frame keeps the remaining frames well formed.
pub(crate) proof fn lemma_frames_pop(stack: Seq<SFrame>)
    requires
        stack.len() > 0,
        forall|i: int| 0 <= i < stack.len() ==> #[trigger] wf_frame(stack, i),
    ensures
        forall|i: int| 0 <= i < stack.len() - 1 ==> #[trigger] wf_frame(stack.drop_last(), i),
        lambdas(stack.drop_last()) == lambdas(stack.take(stack.len() - 1)),
{
    let t = stack.drop_last();
    assert(stack.take(stack.len() - 1) =~= t);
    assert forall|i: int| 0 <= i < stack.len() - 1 implies #[trigger] wf_frame(t, i) by {
        assert(t.take(i) =~= stack.take(i));
        assert(wf_frame(stack, i));
    }
}

/// Every transition from a well-formed state that is not final leads to a
/// well-formed state.
pub proof fn lemma_transition_wf(s: MState)
    requires
        wf_state(s),
        !is_final(s),
    ensures
        wf_state(transition(s)),
{
    let t = transition(s);
    match s.closure {
        SClosure::Proper { term, env } => {
            match term {
                Term::Var { debruijn } => {
                    let c = env[env.len() - 1 - debruijn];
                    assert(wf_closure(c, s.level));
                },
                Term::App { func, arg } => {
                    let f = t.stack.last();
                    assert(t.stack =~= s.stack.push(f));
                    lemma_lambdas_push(s.stack, f);
                    assert(s.stack.push(f).take(s.stack.len() as int) =~= s.stack);
                    lemma_frames_push(s.stack, f);
                },
                Term::Abs { body } => {
                    if s.stack.len() > 0 && s.stack.last() is Closure {
                        let top = s.stack.last();
                        let n = s.stack.len() - 1;
                        assert(wf_frame(s.stack, n));
                        lemma_frames_pop(s.stack);
                        lemma_lambdas_push(s.stack.drop_last(), top);
                        assert(s.stack.drop_last().push(top) =~= s.stack);
                        let x = SClosure::Proper { term: top->Closure_term, env: top->Closure_env };
                        let e = env.push(x);
                        assert forall|i: int| 0 <= i < e.len() implies wf_closure(
                            #[trigger] e[i],
                            s.level,
                        ) by {
                            if i < env.len() {
                                assert(e[i] == env[i]);
                            }
                        }
                        assert(wf_closure(t.closure, t.level));
                    } else {
                        let f = SFrame::Lambda;
                        lemma_lambdas_push(s.stack, f);
                        assert(s.stack.push(f).take(s.stack.len() as int) =~= s.stack);
                        lemma_frames_push(s.stack, f);
                        let e = env.push(SClosure::Level { level: s.level + 1 });
                        assert forall|i: int| 0 <= i < e.len() implies wf_closure(
                            #[trigger] e[i],
                            s.level + 1,
                        ) by {
                            if i < env.len() {
                                assert(e[i] == env[i]);
                                lemma_wf_closure_mono(env[i], s.level, s.level + 1);
                            }
                        }
                        assert(wf_closure(t.closure, t.level));
                    }
                },
            }
        },
        SClosure::Level { level: n } => {
        },
        SClosure::Res { term, level: l } => {
            let rest = s.stack.drop_last();
            let n = s.stack.len() - 1;
            assert(wf_frame(s.stack, n));
            lemma_frames_pop(s.stack);
            lemma_lambdas_push(rest, s.stack.last());
            assert(rest.push(s.stack.last()) =~= s.stack);
            match s.stack.last() {
                SFrame::Closure { term: ft, env: fe } => {
                    let f = t.stack.last();
                    assert(t.stack =~= rest.push(f));
                    assert(rest.push(f).take(rest.len() as int) =~= rest);
                    lemma_frames_push(rest, f);
                    lemma_lambdas_push(rest, f);
                },
                SFrame::Lambda => {
                    if rest.len() > 0 {
                        assert(rest.last() == s.stack[n - 1]);
                    }
                },
                SFrame::Res { term: ft, level: fl } => {
                },
            }
        },
    }
}

/// A final well-formed state holds a closed term in beta-normal form.
pub proof fn lemma_final_wf(s: MState)
    requires
        wf_state(s),
        is_final(s),
    ensures
        closed(s.closure->Res_term),
        normal(s.closure->Res_term),
{
}

pub(crate) proof fn lemma_run_final(s: MState, a: nat, b: nat)
    requires
        is_final(run(s, a)),
        a <= b,
    ensures
        run(s, b) == run(s, a),
    decreases b - a,
{
    if b > a {
        lemma_run_final(s, a, (b - 1) as nat);
    }
}

/// Once the machine has stopped, every later count of transitions shows the
/// same final state.
pub(crate) proof fn lemma_final_unique(s: MState, a: nat, b: nat)
    requires
        is_final(run(s, a)),
        is_final(run(s, b)),
    ensures
        run(s, a) == run(s, b),
{
    if a <= b {
        lemma_run_final(s, a, b);
    } else {
        lemma_run_final(s, b, a);
    }
}

pub(crate) proof fn lemma_run_wf(term: Term, n: nat)
    requires
        closed(term),
        forall|k: nat| k < n ==> !is_final(#[trigger] run(initial(term), k)),
    ensures
        wf_state(run(initial(term), n)),
    decreases n,
{
    if n == 0 {
        assert(wf_closure(initial(term).closure, 0));
    } else {
        let k = (n - 1) as nat;
        lemma_run_wf(term, k);
        assert(!is_final(run(initial(term), k)));
        lemma_transition_wf(run(initial(term), k));
    }
}

/// The result of the machine on a closed term is a closed term in
/// beta-normal form.
pub proof fn lemma_result_closed_normal(term: Term)
    requires
        closed(term),
        halts(term),
    ensures
        closed(machine_result(term)),
        normal(machine_result(term)),
{
    let n = choose|n: nat| is_final(#[trigger] run(initial(term), n));
    let m = first_final(term, n);
    lemma_final_unique(initial(term), n, m);
    lemma_run_wf(term, m);
    lemma_final_wf(run(initial(term), m));
}

/// The first count of transitions, at most `n`, after which the machine has
/// stopped.
pub(crate) proof fn first_final(term: Term, n: nat) -> (m: nat)
    requires
        is_final(run(initial(term), n)),
    ensures
        m <= n,
        is_final(run(initial(term), m)),
        forall|k: nat| k < m ==> !is_final(#[trigger] run(initial(term), k)),
    decreases n,
{
    if n == 0 {
        0
    } else if is_final(run(initial(term), (n - 1) as nat)) {
        first_final(term, (n - 1) as nat)
    } else {
        assert forall|k: nat| k < n implies !is_final(#[trigger] run(initial(term), k)) by {
            if k < n - 1 && is_final(run(initial(term), k)) {
                lemma_run_final(initial(term), k, (n - 1) as nat);
            }
        }
        n
    }
}

} // verus!
