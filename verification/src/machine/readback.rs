//! What a state of the machine stands for, and the proof that the machine
//! performs normal-order reduction on it.
use vstd::prelude::*;
use crate::term::{Term, closed, normal, scoped, size, body_of, func_of, arg_of};
use crate::beta::{
    Lam, lam_of, shift, subst, beta, irreducible, normal_order_step, reduces, reduces_normal_order,
    lemma_normal_order_step_is_beta, lemma_normal_order_reduces, lemma_reduces_normal_order_refl,
    lemma_reduces_normal_order_step,
};
use crate::machine::rules::{
    SClosure, SFrame, MState, initial, is_final, transition, run, halts, machine_result, lambdas,
    wf_closure, wf_frame, wf_state, lemma_lambdas_push, lemma_frames_pop, lemma_final_unique,
    lemma_run_wf, lemma_result_closed_normal, first_final,
};

verus! {

/// The term that a closure stands for, read at the given level: the
/// closure's environment is substituted into its term, and the variable
/// bound at level `n` becomes index `level - n`.
pub open spec fn read(c: SClosure, level: nat) -> Lam
    decreases c, 0nat,
{
    match c {
        SClosure::Proper { term, env } => read_term(term, env, level, 0),
        SClosure::Level { level: n } => Lam::Var((level - n) as nat),
        SClosure::Res { term, .. } => lam_of(term),
    }
}

/// `t` read under `k` binders of its own, in environment `env`, at the
/// given level.
pub open spec fn read_term(t: Term, env: Seq<SClosure>, level: nat, k: nat) -> Lam
    decreases env, size(t),
{
    match t {
        Term::Var { debruijn } => if (debruijn as nat) < k {
            Lam::Var(debruijn as nat)
        } else if debruijn - k < env.len() {
            read(env[env.len() - 1 - (debruijn - k)], level + k)
        } else {
            Lam::Var(debruijn as nat)
        },
        Term::Abs { body } => Lam::Abs(Box::new(read_term(*body, env, level, k + 1))),
        Term::App { func, arg } => Lam::App(
            Box::new(read_term(*func, env, level, k)),
            Box::new(read_term(*arg, env, level, k)),
        ),
    }
}

/// The term in which the term of a frame places the term below it.
pub open spec fn frame_apply(f: SFrame, m: Lam, depth: nat) -> Lam {
    match f {
        SFrame::Closure { term, env } => Lam::App(
            Box::new(m),
            Box::new(read(SClosure::Proper { term, env }, depth)),
        ),
        SFrame::Lambda => Lam::Abs(Box::new(m)),
        SFrame::Res { term, .. } => Lam::App(Box::new(lam_of(term)), Box::new(m)),
    }
}

/// `m` placed into the context that a stack stands for.
pub open spec fn plug(m: Lam, stack: Seq<SFrame>) -> Lam
    decreases stack.len(),
{
    if stack.len() == 0 {
        m
    } else {
        let rest = stack.drop_last();
        plug(frame_apply(stack.last(), m, lambdas(rest)), rest)
    }
}

/// The term that the closure under evaluation stands for.
pub open spec fn focus(s: MState) -> Lam {
    match s.closure {
        SClosure::Proper { .. } => read(s.closure, s.level),
        SClosure::Level { level: n } => Lam::Var((s.level - n) as nat),
        SClosure::Res { term, .. } => lam_of(term),
    }
}

/// The term that a state of the machine stands for.
pub open spec fn readback(s: MState) -> Lam {
    plug(focus(s), s.stack)
}

spec fn env_wf(env: Seq<SClosure>, b: nat) -> bool {
    forall|i: int| 0 <= i < env.len() ==> wf_closure(#[trigger] env[i], b)
}

/// Reading a closure at a higher level shifts its free variables.
proof fn lemma_read_shift(c: SClosure, b: nat, m: nat, k: nat, cut: nat)
    requires
        wf_closure(c, b),
        b <= m,
        cut <= m - b,
    ensures
        read(c, m + k) == shift(read(c, m), k, cut),
    decreases c, 0nat,
{
    match c {
        SClosure::Proper { term, env } => {
            lemma_read_term_shift(term, env, b, m, 0, k, cut);
        },
        _ => {},
    }
}

proof fn lemma_read_term_shift(
    t: Term,
    env: Seq<SClosure>,
    b: nat,
    m: nat,
    j: nat,
    k: nat,
    cut: nat,
)
    requires
        env_wf(env, b),
        scoped(t, env.len() + j),
        b <= m,
        cut <= m - b,
    ensures
        read_term(t, env, m + k, j) == shift(read_term(t, env, m, j), k, cut + j),
    decreases env, size(t),
{
    match t {
        Term::Var { debruijn } => {
            if (debruijn as nat) >= j {
                let e = env[env.len() - 1 - (debruijn - j)];
                assert(wf_closure(e, b));
                lemma_read_shift(e, b, m + j, k, cut + j);
                assert(m + k + j == m + j + k);
            }
        },
        Term::Abs { .. } => {
            lemma_read_term_shift(body_of(t), env, b, m, j + 1, k, cut);
        },
        Term::App { .. } => {
            lemma_read_term_shift(func_of(t), env, b, m, j, k, cut);
            lemma_read_term_shift(arg_of(t), env, b, m, j, k, cut);
        },
    }
}

/// Reading a closure one level lower is substituting into it for a
/// variable that it does not contain.
proof fn lemma_read_unshift(c: SClosure, b: nat, n: nat, k: nat, a: Lam)
    requires
        wf_closure(c, b),
        b <= n,
        k <= n - b,
    ensures
        subst(read(c, n + 1), k, a) == read(c, n),
    decreases c, 0nat,
{
    match c {
        SClosure::Proper { term, env } => {
            lemma_read_term_unshift(term, env, b, n, 0, k, a);
        },
        _ => {},
    }
}

proof fn lemma_read_term_unshift(
    t: Term,
    env: Seq<SClosure>,
    b: nat,
    n: nat,
    j: nat,
    k: nat,
    a: Lam,
)
    requires
        env_wf(env, b),
        scoped(t, env.len() + j),
        b <= n,
        k <= n - b,
    ensures
        subst(read_term(t, env, n + 1, j), k + j, a) == read_term(t, env, n, j),
    decreases env, size(t),
{
    match t {
        Term::Var { debruijn } => {
            if (debruijn as nat) >= j {
                let e = env[env.len() - 1 - (debruijn - j)];
                assert(wf_closure(e, b));
                lemma_read_unshift(e, b, n + j, k + j, a);
                assert(n + 1 + j == n + j + 1);
            }
        },
        Term::Abs { .. } => {
            lemma_read_term_unshift(body_of(t), env, b, n, j + 1, k, a);
        },
        Term::App { .. } => {
            lemma_read_term_unshift(func_of(t), env, b, n, j, k, a);
            lemma_read_term_unshift(arg_of(t), env, b, n, j, k, a);
        },
    }
}

/// Contracting the redex that rule 5 meets is extending the environment.
proof fn lemma_read_term_beta(t: Term, env: Seq<SClosure>, x: SClosure, l: nat, k: nat)
    requires
        env_wf(env, l),
        wf_closure(x, l),
        scoped(t, env.len() + 1 + k),
    ensures
        subst(read_term(t, env, l, k + 1), k, read(x, l)) == read_term(t, env.push(x), l, k),
    decreases t,
{
    let env2 = env.push(x);
    match t {
        Term::Var { debruijn } => {
            let i = debruijn as nat;
            if i == k {
                assert(env2[env2.len() - 1] == x);
                lemma_read_shift(x, l, l, k, 0);
            } else if i > k {
                let e = env[env.len() - 1 - (i - k - 1)];
                assert(env2[env2.len() - 1 - (i - k)] == e);
                assert(wf_closure(e, l));
                lemma_read_unshift(e, l, l + k, k, read(x, l));
                assert(l + k + 1 == l + (k + 1));
            }
        },
        Term::Abs { .. } => {
            lemma_read_term_beta(body_of(t), env, x, l, k + 1);
        },
        Term::App { .. } => {
            lemma_read_term_beta(func_of(t), env, x, l, k);
            lemma_read_term_beta(arg_of(t), env, x, l, k);
        },
    }
}

/// Entering an abstraction (rule 6) does not change what the body stands
/// for.
pub(crate) proof fn lemma_read_term_enter(t: Term, env: Seq<SClosure>, l: nat, k: nat)
    ensures
        read_term(t, env.push(SClosure::Level { level: l + 1 }), l + 1, k) == read_term(
            t,
            env,
            l,
            k + 1,
        ),
    decreases t,
{
    let env2 = env.push(SClosure::Level { level: l + 1 });
    match t {
        Term::Var { debruijn } => {
            let i = debruijn as nat;
            if i == k {
                assert(env2[env2.len() - 1] == SClosure::Level { level: l + 1 });
                assert(read(env2[env2.len() - 1 - (i - k)], l + 1 + k) == Lam::Var(k));
            }
            if i > k && i - k <= env.len() {
                assert(env2[env2.len() - 1 - (i - k)] == env[env.len() - 1 - (i - k - 1)]);
                assert(l + 1 + k == l + (k + 1));
            }
        },
        Term::Abs { .. } => {
            lemma_read_term_enter(body_of(t), env, l, k + 1);
        },
        Term::App { .. } => {
            lemma_read_term_enter(func_of(t), env, l, k);
            lemma_read_term_enter(arg_of(t), env, l, k);
        },
    }
}

proof fn lemma_plug_push(m: Lam, stack: Seq<SFrame>, f: SFrame)
    ensures
        plug(m, stack.push(f)) == plug(frame_apply(f, m, lambdas(stack)), stack),
{
    assert(stack.push(f).drop_last() =~= stack);
}

/// A normal-order step in the closure under evaluation is a normal-order
/// step of the whole term: what lies to its left is normal, and it is not
/// the function of an application.
proof fn lemma_plug_normal_order(m1: Lam, m2: Lam, stack: Seq<SFrame>)
    requires
        normal_order_step(m1, m2),
        forall|i: int| 0 <= i < stack.len() ==> #[trigger] wf_frame(stack, i),
        (m1 is Abs && stack.len() > 0) ==> !(stack.last() is Closure),
    ensures
        normal_order_step(plug(m1, stack), plug(m2, stack)),
    decreases stack.len(),
{
    if stack.len() > 0 {
        let rest = stack.drop_last();
        let d = lambdas(rest);
        let f = stack.last();
        let a1 = frame_apply(f, m1, d);
        let a2 = frame_apply(f, m2, d);
        let n = stack.len() - 1;
        assert(wf_frame(stack, n));
        lemma_frames_pop(stack);
        if rest.len() > 0 {
            assert(rest.last() == stack[n - 1]);
        }
        match f {
            SFrame::Closure { .. } => {
                lemma_normal_order_step_is_beta(m1, m2);
                assert(!irreducible(m1));
                assert(normal_order_step(a1, a2));
            },
            SFrame::Lambda => {
                assert(normal_order_step(a1, a2));
            },
            SFrame::Res { term, .. } => {
                lemma_normal_irreducible(term);
                assert(normal_order_step(a1, a2));
            },
        }
        lemma_plug_normal_order(a1, a2, rest);
    }
}

/// Rule 5 applies: an abstraction meets its argument.
pub open spec fn contracts(s: MState) -> bool {
    &&& s.closure matches SClosure::Proper { term, .. } && term is Abs
    &&& s.stack.len() > 0
    &&& s.stack.last() is Closure
}

/// Every transition from a well-formed state either leaves the term that
/// the state stands for as it is, or makes one step of normal-order
/// reduction in it (rule 5).
pub proof fn lemma_transition_readback(s: MState)
    requires
        wf_state(s),
        !is_final(s),
    ensures
        readback(transition(s)) == readback(s) || normal_order_step(
            readback(s),
            readback(transition(s)),
        ),
        contracts(s) ==> normal_order_step(readback(s), readback(transition(s))),
        !contracts(s) ==> readback(transition(s)) == readback(s),
{
    let t = transition(s);
    match s.closure {
        SClosure::Proper { term, env } => {
            match term {
                Term::Var { debruijn } => {
                    let c = env[env.len() - 1 - debruijn];
                    assert(wf_closure(c, s.level));
                    assert(readback(t) == readback(s));
                },
                Term::App { .. } => {
                    let f = t.stack.last();
                    assert(t.stack =~= s.stack.push(f));
                    lemma_plug_push(focus(t), s.stack, f);
                    assert(readback(t) == readback(s));
                },
                Term::Abs { .. } => {
                    let b = body_of(term);
                    if s.stack.len() > 0 && s.stack.last() is Closure {
                        let top = s.stack.last();
                        let rest = s.stack.drop_last();
                        let x = SClosure::Proper { term: top->Closure_term, env: top->Closure_env };
                        assert(rest.push(top) =~= s.stack);
                        lemma_lambdas_push(rest, top);
                        lemma_plug_push(focus(s), rest, top);
                        assert(wf_frame(s.stack, s.stack.len() - 1));
                        assert(s.stack.take(s.stack.len() - 1) =~= rest);
                        assert(wf_closure(x, s.level));
                        lemma_read_term_beta(b, env, x, s.level, 0);
                        let redex = frame_apply(top, focus(s), lambdas(rest));
                        assert(normal_order_step(redex, focus(t)));
                        lemma_frames_pop(s.stack);
                        if rest.len() > 0 {
                            assert(rest.last() == s.stack[s.stack.len() - 2]);
                        }
                        lemma_plug_normal_order(redex, focus(t), rest);
                    } else {
                        lemma_read_term_enter(b, env, s.level, 0);
                        lemma_plug_push(focus(t), s.stack, SFrame::Lambda);
                        assert(readback(t) == readback(s));
                    }
                },
            }
        },
        SClosure::Level { level: n } => {
            assert(readback(t) == readback(s));
        },
        SClosure::Res { term, level: l } => {
            let rest = s.stack.drop_last();
            let top = s.stack.last();
            assert(rest.push(top) =~= s.stack);
            lemma_plug_push(focus(s), rest, top);
            lemma_lambdas_push(rest, top);
            match top {
                SFrame::Closure { .. } => {
                    let f = t.stack.last();
                    assert(t.stack =~= rest.push(f));
                    lemma_plug_push(focus(t), rest, f);
                    assert(readback(t) == readback(s));
                },
                SFrame::Lambda => {
                    assert(readback(t) == readback(s));
                },
                SFrame::Res { .. } => {
                    assert(readback(t) == readback(s));
                },
            }
        },
    }
}

pub(crate) proof fn lemma_read_term_closed(t: Term, level: nat, k: nat)
    requires
        scoped(t, k),
    ensures
        read_term(t, Seq::empty(), level, k) == lam_of(t),
    decreases t,
{
    match t {
        Term::Var { .. } => {},
        Term::Abs { .. } => lemma_read_term_closed(body_of(t), level, k + 1),
        Term::App { .. } => {
            lemma_read_term_closed(func_of(t), level, k);
            lemma_read_term_closed(arg_of(t), level, k);
        },
    }
}

proof fn lemma_run_reduces(term: Term, n: nat)
    requires
        closed(term),
        forall|k: nat| k < n ==> !is_final(#[trigger] run(initial(term), k)),
    ensures
        reduces_normal_order(lam_of(term), readback(run(initial(term), n))),
    decreases n,
{
    if n == 0 {
        lemma_read_term_closed(term, 0, 0);
        lemma_reduces_normal_order_refl(lam_of(term));
    } else {
        let k = (n - 1) as nat;
        lemma_run_reduces(term, k);
        assert(!is_final(run(initial(term), k)));
        lemma_run_wf(term, k);
        lemma_transition_readback(run(initial(term), k));
        if readback(run(initial(term), n)) != readback(run(initial(term), k)) {
            lemma_reduces_normal_order_step(
                lam_of(term),
                readback(run(initial(term), k)),
                readback(run(initial(term), n)),
            );
        }
    }
}

/// A term in normal form admits no beta step.
pub proof fn lemma_normal_irreducible(t: Term)
    requires
        normal(t),
    ensures
        irreducible(lam_of(t)),
    decreases t,
{
    match t {
        Term::Var { .. } => {
            assert forall|f: Lam| !#[trigger] beta(lam_of(t), f) by {}
        },
        Term::Abs { .. } => {
            lemma_normal_irreducible(body_of(t));
            assert forall|f: Lam| !#[trigger] beta(lam_of(t), f) by {
                if let Lam::Abs(c) = f {
                    assert(!beta(lam_of(body_of(t)), *c));
                }
            }
        },
        Term::App { .. } => {
            lemma_normal_irreducible(func_of(t));
            lemma_normal_irreducible(arg_of(t));
            assert(!(lam_of(func_of(t)) is Abs));
            assert forall|f: Lam| !#[trigger] beta(lam_of(t), f) by {
                if let Lam::App(g2, a2) = f {
                    assert(!beta(lam_of(func_of(t)), *g2));
                    assert(!beta(lam_of(arg_of(t)), *a2));
                }
            }
        },
    }
}

/// The machine computes the normal form by normal-order reduction: started
/// on a closed term, it stops with a closed term that the input reduces to
/// by normal-order (hence beta) steps and that admits no further beta step.
pub proof fn lemma_result_is_normal_form(term: Term)
    requires
        closed(term),
        halts(term),
    ensures
        reduces_normal_order(lam_of(term), lam_of(machine_result(term))),
        reduces(lam_of(term), lam_of(machine_result(term))),
        irreducible(lam_of(machine_result(term))),
        closed(machine_result(term)),
{
    let n = choose|n: nat| is_final(#[trigger] run(initial(term), n));
    let m = first_final(term, n);
    lemma_final_unique(initial(term), n, m);
    lemma_run_reduces(term, m);
    lemma_normal_order_reduces(lam_of(term), lam_of(machine_result(term)));
    lemma_result_closed_normal(term);
    lemma_normal_irreducible(machine_result(term));
}

} // verus!
