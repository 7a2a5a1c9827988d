//! The machine stops on every closed term that normal-order reduction
//! brings to a normal form.
use vstd::prelude::*;
use crate::term::{Term, closed, normal, abs_depth, body_of};
use crate::beta::{
    Lam, lam_of, beta, irreducible, normal_order_step, normalizes, is_normal_order_reduction,
    lam_depth, lam_size, lemma_normal_order_step_is_beta, lemma_normal_order_deterministic,
    lemma_normal_form_unique, lemma_reduces_normal_order_refl, lemma_lam_of_injective, lemma_lam_depth,
    reduces_normal_order, lemma_common_reduct,
};
use crate::machine::rules::{
    SClosure, SFrame, MState, initial, is_final, transition, run, halts, machine_result, lambdas,
    wf_closure, wf_state, lemma_lambdas_push, lemma_transition_wf, lemma_result_closed_normal,
};
use crate::machine::readback::{
    read, frame_apply, plug, focus, readback, contracts, lemma_read_term_enter,
    lemma_transition_readback, lemma_read_term_closed, lemma_normal_irreducible,
    lemma_result_is_normal_form,
};

verus! {

/// The number of closures in a closure, its environment included.
spec fn closure_count(c: SClosure) -> nat
    decreases c, 0nat,
{
    match c {
        SClosure::Proper { env, .. } => 1 + env_count(env, env.len()),
        _ => 1,
    }
}

spec fn env_count(env: Seq<SClosure>, n: nat) -> nat
    decreases env, n,
{
    if n == 0 || n > env.len() {
        0
    } else {
        env_count(env, (n - 1) as nat) + closure_count(env[n - 1])
    }
}

proof fn lemma_env_count(env: Seq<SClosure>, n: nat, j: int)
    requires
        0 <= j < n <= env.len(),
    ensures
        closure_count(env[j]) <= env_count(env, n),
    decreases n,
{
    if j < n - 1 {
        lemma_env_count(env, (n - 1) as nat, j);
    }
}

/// The administrative work left: the size of what the closure under
/// evaluation and the pending arguments stand for, and the frames to
/// rebuild.
spec fn work(s: MState) -> nat {
    (match s.closure {
        SClosure::Proper { .. } => 3 * lam_size(read(s.closure, s.level)),
        SClosure::Level { .. } => 2,
        SClosure::Res { .. } => 0,
    }) + frames_work(s.stack)
}

spec fn frame_work(f: SFrame, depth: nat) -> nat {
    match f {
        SFrame::Closure { term, env } => 3 * lam_size(read(SClosure::Proper { term, env }, depth))
            + 2,
        SFrame::Lambda => 1,
        SFrame::Res { .. } => 1,
    }
}

spec fn frames_work(stack: Seq<SFrame>) -> nat
    decreases stack.len(),
{
    if stack.len() == 0 {
        0
    } else {
        let rest = stack.drop_last();
        frames_work(rest) + frame_work(stack.last(), lambdas(rest))
    }
}

spec fn focus_count(s: MState) -> nat {
    match s.closure {
        SClosure::Proper { .. } => closure_count(s.closure),
        _ => 0,
    }
}

proof fn lemma_frames_work_push(stack: Seq<SFrame>, f: SFrame)
    ensures
        frames_work(stack.push(f)) == frames_work(stack) + frame_work(f, lambdas(stack)),
{
    assert(stack.push(f).drop_last() =~= stack);
}

/// Placing a term into the context of a stack puts it below the stack's
/// abstractions.
proof fn lemma_plug_depth(m: Lam, stack: Seq<SFrame>)
    ensures
        lam_depth(plug(m, stack)) >= lam_depth(m) + lambdas(stack),
    decreases stack.len(),
{
    if stack.len() > 0 {
        let rest = stack.drop_last();
        let a = frame_apply(stack.last(), m, lambdas(rest));
        lemma_plug_depth(a, rest);
    }
}

/// A transition other than rule 5 lowers the administrative work, or keeps
/// it and moves to a smaller closure (rules 2 and 3).
proof fn lemma_admin_transition(s: MState)
    requires
        wf_state(s),
        !is_final(s),
        !contracts(s),
        lam_depth(readback(s)) <= usize::MAX,
    ensures
        work(transition(s)) < work(s) || (work(transition(s)) == work(s) && focus_count(
            transition(s),
        ) < focus_count(s)),
{
    let t = transition(s);
    match s.closure {
        SClosure::Proper { term, env } => {
            match term {
                Term::Var { debruijn } => {
                    let j = env.len() - 1 - debruijn;
                    assert(wf_closure(env[j], s.level));
                    lemma_env_count(env, env.len(), j);
                },
                Term::App { .. } => {
                    let f = t.stack.last();
                    assert(t.stack =~= s.stack.push(f));
                    lemma_frames_work_push(s.stack, f);
                },
                Term::Abs { .. } => {
                    lemma_plug_depth(focus(s), s.stack);
                    lemma_read_term_enter(body_of(term), env, s.level, 0);
                    lemma_frames_work_push(s.stack, SFrame::Lambda);
                    assert(t.stack == s.stack.push(SFrame::Lambda));
                },
            }
        },
        SClosure::Level { .. } => {},
        SClosure::Res { .. } => {
            let rest = s.stack.drop_last();
            let top = s.stack.last();
            assert(rest.push(top) =~= s.stack);
            lemma_frames_work_push(rest, top);
            lemma_lambdas_push(rest, top);
            match top {
                SFrame::Closure { .. } => {
                    let f = t.stack.last();
                    assert(t.stack =~= rest.push(f));
                    lemma_frames_work_push(rest, f);
                },
                _ => {},
            }
        },
    }
}

proof fn lemma_run_shift(s: MState, n: nat)
    ensures
        run(s, n + 1) == run(transition(s), n),
    decreases n,
{
    assert(run(s, 0) == s);
    if n > 0 {
        lemma_run_shift(s, (n - 1) as nat);
        assert(run(s, n + 1) == transition(run(s, n)));
    } else {
        assert(run(s, 1) == transition(run(s, 0)));
    }
}

/// From a well-formed state that stands for a term on a normal-order
/// reduction to a normal form, the machine stops.
proof fn lemma_halts_from(s: MState, tr: Seq<Lam>, k: int)
    requires
        wf_state(s),
        is_normal_order_reduction(tr),
        irreducible(tr.last()),
        forall|i: int| 0 <= i < tr.len() ==> lam_depth(#[trigger] tr[i]) <= usize::MAX,
        0 <= k < tr.len(),
        readback(s) == tr[k],
    ensures
        exists|n: nat| is_final(#[trigger] run(s, n)),
    decreases tr.len() - k, work(s), focus_count(s),
{
    if is_final(s) {
        assert(is_final(run(s, 0)));
    } else {
        let t = transition(s);
        lemma_transition_wf(s);
        lemma_transition_readback(s);
        if contracts(s) {
            if k == tr.len() - 1 {
                lemma_normal_order_step_is_beta(readback(s), readback(t));
                assert(tr.last() == readback(s));
                assert(!beta(tr.last(), readback(t)));
            }
            assert(normal_order_step(tr[k], tr[k + 1]));
            lemma_normal_order_deterministic(tr[k], tr[k + 1], readback(t));
            lemma_halts_from(t, tr, k + 1);
        } else {
            lemma_admin_transition(s);
            lemma_halts_from(t, tr, k);
        }
        let n = choose|n: nat| is_final(#[trigger] run(t, n));
        lemma_run_shift(s, n);
        assert(is_final(run(s, n + 1)));
    }
}

/// The machine stops on every closed term that normal-order reduction
/// brings to a normal form.
pub proof fn lemma_normalizes_halts(term: Term)
    requires
        closed(term),
        normalizes(lam_of(term)),
    ensures
        halts(term),
{
    let tr = choose|tr: Seq<Lam>|
        #[trigger] is_normal_order_reduction(tr) && tr[0] == lam_of(term) && irreducible(tr.last())
            && forall|i: int| 0 <= i < tr.len() ==> lam_depth(#[trigger] tr[i]) <= usize::MAX;
    lemma_read_term_closed(term, 0, 0);
    assert(wf_closure(initial(term).closure, 0));
    lemma_halts_from(initial(term), tr, 0);
}

/// The machine stops on every closed term in normal form, and gives it
/// back unchanged.
pub proof fn lemma_normal_fixed(term: Term)
    requires
        closed(term),
        normal(term),
        abs_depth(term) <= usize::MAX,
    ensures
        halts(term),
        machine_result(term) == term,
{
    lemma_normal_irreducible(term);
    lemma_lam_depth(term);
    let tr = seq![lam_of(term)];
    assert(is_normal_order_reduction(tr));
    lemma_normalizes_halts(term);
    lemma_result_is_normal_form(term);
    lemma_reduces_normal_order_refl(lam_of(term));
    lemma_normal_form_unique(lam_of(term), lam_of(term), lam_of(machine_result(term)));
    lemma_lam_of_injective(machine_result(term), term);
}

/// Evaluation is idempotent: the machine gives back a result of its own
/// unchanged.
pub proof fn lemma_eval_idempotent(term: Term)
    requires
        closed(term),
        halts(term),
        abs_depth(machine_result(term)) <= usize::MAX,
    ensures
        halts(machine_result(term)),
        machine_result(machine_result(term)) == machine_result(term),
{
    lemma_result_closed_normal(term);
    lemma_normal_fixed(machine_result(term));
}


/// Two closed terms that normal-order reduction brings to a common term
/// evaluate to the same result.
pub proof fn lemma_common_reduct_same_result(t1: Term, t2: Term, m: Lam)
    requires
        closed(t1),
        closed(t2),
        normalizes(lam_of(t1)),
        normalizes(lam_of(t2)),
        reduces_normal_order(lam_of(t1), m),
        reduces_normal_order(lam_of(t2), m),
    ensures
        machine_result(t1) == machine_result(t2),
{
    lemma_normalizes_halts(t1);
    lemma_normalizes_halts(t2);
    lemma_result_is_normal_form(t1);
    lemma_result_is_normal_form(t2);
    lemma_common_reduct(
        lam_of(t1),
        lam_of(t2),
        m,
        lam_of(machine_result(t1)),
        lam_of(machine_result(t2)),
    );
    lemma_lam_of_injective(machine_result(t1), machine_result(t2));
}

} // verus!
