//! The full-reducing Krivine machine KN, in the version that works with
//! closures over closed terms (García-Pérez and Nogueira, Fig. 3).
//!
//! Variables are De Bruijn indices; the machine evaluates closures (terms
//! together with the environments in which they are evaluated) and keeps a
//! stack of frames for the surrounding context. Terms under a lambda are
//! evaluated too, so the result is a beta-normal form.
use std::rc::Rc;
use vstd::prelude::*;
use crate::term::{Term, closed, normal};
use crate::beta::{Lam, lam_of, irreducible, reduces_normal_order, lemma_normal_form_unique};
use crate::machine::rules::{
    SClosure, SFrame, MState, initial, is_final, transition, run, halts, machine_result,
    wf_closure, wf_state, lemma_lambdas_le_len, lemma_transition_wf, lemma_final_unique, lemma_run_final,
    lemma_result_closed_normal,
};
use crate::machine::readback::lemma_result_is_normal_form;

pub mod halting;
pub mod readback;
pub mod rules;

verus! {

/// A closure of the running machine (see `SClosure`); closures share their
/// terms and environments.
enum Closure {
    Proper { term: Rc<Term>, env: Rc<Vec<Closure>> },
    Level(usize),
    Res { term: Rc<Term>, level: usize },
}

/// A frame of the running machine's stack (see `SFrame`).
enum Frame {
    Closure { term: Rc<Term>, env: Rc<Vec<Closure>> },
    Lambda,
    Res { term: Rc<Term>, level: usize },
}

/// The mathematical closure that a closure of the running machine is.
spec fn closure_view(c: Closure) -> SClosure
    decreases c, 0nat,
{
    match c {
        Closure::Proper { term, env } => SClosure::Proper {
            term: *term,
            env: env_view_upto((*env)@, (*env)@.len()),
        },
        Closure::Level(n) => SClosure::Level { level: n as nat },
        Closure::Res { term, level } => SClosure::Res { term: *term, level: level as nat },
    }
}

spec fn env_view_upto(s: Seq<Closure>, n: nat) -> Seq<SClosure>
    decreases s, n,
{
    if n == 0 || n > s.len() {
        Seq::empty()
    } else {
        env_view_upto(s, (n - 1) as nat).push(closure_view(s[n - 1]))
    }
}

spec fn env_view(s: Seq<Closure>) -> Seq<SClosure> {
    env_view_upto(s, s.len())
}

spec fn frame_view(f: Frame) -> SFrame {
    match f {
        Frame::Closure { term, env } => SFrame::Closure { term: *term, env: env_view((*env)@) },
        Frame::Lambda => SFrame::Lambda,
        Frame::Res { term, level } => SFrame::Res { term: *term, level: level as nat },
    }
}

spec fn stack_view(s: Seq<Frame>) -> Seq<SFrame> {
    s.map_values(|f: Frame| frame_view(f))
}

proof fn lemma_env_view_upto(s: Seq<Closure>, n: nat)
    requires
        n <= s.len(),
    ensures
        env_view_upto(s, n).len() == n,
        forall|i: int| 0 <= i < n ==> #[trigger] env_view_upto(s, n)[i] == closure_view(s[i]),
    decreases n,
{
    if n > 0 {
        lemma_env_view_upto(s, (n - 1) as nat);
    }
}

proof fn lemma_env_view(s: Seq<Closure>)
    ensures
        env_view(s).len() == s.len(),
        forall|i: int| 0 <= i < s.len() ==> #[trigger] env_view(s)[i] == closure_view(s[i]),
{
    lemma_env_view_upto(s, s.len());
}

proof fn lemma_env_view_push(s: Seq<Closure>, c: Closure)
    ensures
        env_view(s.push(c)) == env_view(s).push(closure_view(c)),
{
    lemma_env_view(s);
    lemma_env_view(s.push(c));
    assert(env_view(s.push(c)) =~= env_view(s).push(closure_view(c)));
}

/// The state of the running machine.
struct Machine {
    closure: Closure,
    stack: Vec<Frame>,
    level: usize,
}

impl Machine {
    spec fn view(&self) -> MState {
        MState {
            closure: closure_view(self.closure),
            stack: stack_view(self.stack@),
            level: self.level as nat,
        }
    }
}

fn copy_closure(c: &Closure) -> (r: Closure)
    ensures
        r == *c,
{
    match c {
        Closure::Proper { term, env } => Closure::Proper {
            term: Rc::clone(term),
            env: Rc::clone(env),
        },
        Closure::Level(n) => Closure::Level(*n),
        Closure::Res { term, level } => Closure::Res { term: Rc::clone(term), level: *level },
    }
}

fn copy_env(env: &Vec<Closure>) -> (r: Vec<Closure>)
    ensures
        r@ == env@,
{
    let mut r: Vec<Closure> = Vec::new();
    let mut i: usize = 0;
    while i < env.len()
        invariant
            i <= env@.len(),
            r@ == env@.take(i as int),
        decreases env@.len() - i,
    {
        r.push(copy_closure(&env[i]));
        proof {
            assert(env@.take(i as int).push(env@[i as int]) =~= env@.take(i + 1));
        }
        i = i + 1;
    }
    proof {
        assert(env@.take(i as int) =~= env@);
    }
    r
}

fn copy_term(t: &Term) -> (r: Term)
    ensures
        r == *t,
{
    match t {
        Term::Var { debruijn } => Term::Var { debruijn: *debruijn },
        Term::Abs { body } => Term::Abs { body: Rc::clone(body) },
        Term::App { func, arg } => Term::App { func: Rc::clone(func), arg: Rc::clone(arg) },
    }
}

proof fn lemma_stack_view_push(s: Seq<Frame>, f: Frame)
    ensures
        stack_view(s.push(f)) == stack_view(s).push(frame_view(f)),
{
    assert(stack_view(s.push(f)) =~= stack_view(s).push(frame_view(f)));
}

proof fn lemma_stack_view_pop(s: Seq<Frame>)
    requires
        s.len() > 0,
    ensures
        stack_view(s.drop_last()) == stack_view(s).drop_last(),
        stack_view(s).last() == frame_view(s.last()),
{
    assert(stack_view(s.drop_last()) =~= stack_view(s).drop_last());
}

/// Performs one transition of the machine.
fn step(m: Machine) -> (next: Machine)
    requires
        wf_state(m@),
        !is_final(m@),
    ensures
        next@ == transition(m@),
{
    let ghost s = m@;
    let Machine { closure, mut stack, level } = m;
    match closure {
        Closure::Proper { term, env } => {
            let ghost ev = env_view((*env)@);
            proof {
                lemma_env_view((*env)@);
            }
            let t: &Term = &term;
            match t {
                Term::Var { debruijn } => {
                    // rules 2 and 3
                    let e: &Vec<Closure> = &env;
                    let i = e.len() - 1 - *debruijn;
                    let c = copy_closure(&e[i]);
                    Machine { closure: c, stack, level }
                },
                Term::App { func, arg } => {
                    // rule 4
                    let f = Frame::Closure { term: Rc::clone(arg), env: Rc::clone(&env) };
                    proof {
                        lemma_stack_view_push(stack@, f);
                    }
                    stack.push(f);
                    Machine { closure: Closure::Proper { term: Rc::clone(func), env }, stack, level }
                },
                Term::Abs { body } => {
                    let ghost before = stack@;
                    match stack.pop() {
                        Some(Frame::Closure { term: ft, env: fe }) => {
                            // rule 5
                            proof {
                                lemma_stack_view_pop(before);
                            }
                            let mut newenv = copy_env(&env);
                            let x = Closure::Proper { term: ft, env: fe };
                            proof {
                                lemma_env_view_push(newenv@, x);
                            }
                            newenv.push(x);
                            Machine {
                                closure: Closure::Proper { term: Rc::clone(body), env: Rc::new(newenv) },
                                stack,
                                level,
                            }
                        },
                        other => {
                            // rule 6
                            match other {
                                Some(f) => {
                                    stack.push(f);
                                    proof {
                                        assert(stack@ =~= before);
                                        if before.len() > 0 {
                                            lemma_stack_view_pop(before);
                                        }
                                    }
                                },
                                None => {},
                            }
                            proof {
                                lemma_stack_view_push(stack@, Frame::Lambda);
                                lemma_lambdas_le_len(s.stack);
                            }
                            stack.push(Frame::Lambda);
                            assert(stack.len() == stack@.len());
                            let new_level = level + 1;
                            let mut newenv = copy_env(&env);
                            let x = Closure::Level(new_level);
                            proof {
                                lemma_env_view_push(newenv@, x);
                            }
                            newenv.push(x);
                            Machine {
                                closure: Closure::Proper { term: Rc::clone(body), env: Rc::new(newenv) },
                                stack,
                                level: new_level,
                            }
                        },
                    }
                },
            }
        },
        Closure::Level(n) => {
            // rule 7
            let v = Term::Var { debruijn: level - n };
            Machine { closure: Closure::Res { term: Rc::new(v), level }, stack, level }
        },
        Closure::Res { term: t, level: l } => {
            let ghost before = stack@;
            proof {
                lemma_stack_view_pop(before);
            }
            match stack.pop() {
                Some(Frame::Closure { term: ft, env: fe }) => {
                    // rule 8
                    let f = Frame::Res { term: t, level: l };
                    proof {
                        lemma_stack_view_push(stack@, f);
                    }
                    stack.push(f);
                    Machine { closure: Closure::Proper { term: ft, env: fe }, stack, level: l }
                },
                Some(Frame::Lambda) => {
                    // rule 9
                    let r = Term::Abs { body: t };
                    Machine { closure: Closure::Res { term: Rc::new(r), level: l }, stack, level }
                },
                Some(Frame::Res { term: ft, level: fl }) => {
                    // rule 10
                    let r = Term::App { func: ft, arg: t };
                    Machine { closure: Closure::Res { term: Rc::new(r), level: fl }, stack, level }
                },
                None => {
                    proof {
                        assert(false);
                    }
                    Machine { closure: Closure::Level(0), stack, level }
                },
            }
        },
    }
}

fn is_stopped(m: &Machine) -> (b: bool)
    ensures
        b == is_final(m@),
{
    match &m.closure {
        Closure::Res { .. } => m.stack.len() == 0,
        _ => false,
    }
}

/// Runs the machine on a closed term until it stops, and returns the term
/// that it stops with.
fn krivine(term: Term) -> (result: Term)
    requires
        closed(term),
        halts(term),
    ensures
        result == machine_result(term),
{
    // rule 1
    let mut m = Machine {
        closure: Closure::Proper { term: Rc::new(term), env: Rc::new(Vec::new()) },
        stack: Vec::new(),
        level: 0,
    };
    let ghost n = choose|n: nat| is_final(#[trigger] run(initial(term), n));
    let ghost mut i: nat = 0;
    proof {
        lemma_env_view(Seq::<Closure>::empty());
        assert(stack_view(m.stack@) =~= Seq::<SFrame>::empty());
        assert(m@.closure == initial(term).closure);
        assert(m@ == initial(term));
        assert(wf_closure(initial(term).closure, 0));
    }
    while !is_stopped(&m)
        invariant
            closed(term),
            is_final(run(initial(term), n)),
            m@ == run(initial(term), i),
            wf_state(m@),
            i <= n,
        decreases n - i,
    {
        proof {
            if i == n {
                assert(false);
            }
            lemma_transition_wf(m@);
        }
        m = step(m);
        proof {
            i = i + 1;
        }
    }
    proof {
        let k = choose|k: nat| is_final(#[trigger] run(initial(term), k));
        lemma_final_unique(initial(term), k, i);
    }
    match &m.closure {
        Closure::Res { term: t, .. } => copy_term(t),
        _ => {
            proof {
                assert(false);
            }
            Term::Var { debruijn: 0 }
        },
    }
}

/// Normal-order evaluation of a closed term: the term is reduced to its
/// beta-normal form by the full-reducing Krivine machine. The result is the
/// one the machine stops with, and it is the closed term in normal form that
/// normal-order reduction of the input reaches.
///
/// On a term where the machine runs forever there is no result; such terms
/// are left out by `halts`. Every closed term that normal-order reduction
/// brings to a normal form is in (`lemma_normalizes_halts`).
pub fn eval(term: Term) -> (result: Term)
    requires
        closed(term),
        halts(term),
    ensures
        result == machine_result(term),
        closed(result),
        normal(result),
        reduces_normal_order(term@, result@),
        irreducible(result@),
        forall|nf: Lam| reduces_normal_order(term@, nf) && irreducible(nf) ==> nf == result@,
{
    proof {
        lemma_result_closed_normal(term);
        lemma_result_is_normal_form(term);
        assert forall|nf: Lam| reduces_normal_order(term@, nf) && irreducible(nf) implies nf
            == lam_of(machine_result(term)) by {
            lemma_normal_form_unique(term@, nf, lam_of(machine_result(term)));
        }
    }
    krivine(term)
}

/// Evaluation with a bound on the work: runs the machine for at most
/// `max_steps` transitions, and gives the normal form where the machine has
/// stopped by then; `None` where it is still running.
pub fn eval_within(term: Term, max_steps: usize) -> (res: Option<Term>)
    requires
        closed(term),
    ensures
        match res {
            Some(result) => {
                &&& halts(term)
                &&& is_final(run(initial(term), max_steps as nat))
                &&& result == machine_result(term)
                &&& closed(result)
                &&& normal(result)
                &&& reduces_normal_order(term@, result@)
            },
            None => !is_final(run(initial(term), max_steps as nat)),
        },
{
    let mut m = Machine {
        closure: Closure::Proper { term: Rc::new(term), env: Rc::new(Vec::new()) },
        stack: Vec::new(),
        level: 0,
    };
    proof {
        lemma_env_view(Seq::<Closure>::empty());
        assert(stack_view(m.stack@) =~= Seq::<SFrame>::empty());
        assert(m@ == initial(term));
        assert(wf_closure(initial(term).closure, 0));
    }
    let mut i: usize = 0;
    while i < max_steps && !is_stopped(&m)
        invariant
            i <= max_steps,
            m@ == run(initial(term), i as nat),
            wf_state(m@),
        decreases max_steps - i,
    {
        proof {
            lemma_transition_wf(m@);
        }
        m = step(m);
        i = i + 1;
    }
    if !is_stopped(&m) {
        return None;
    }
    proof {
        let k = choose|k: nat| is_final(#[trigger] run(initial(term), k));
        lemma_final_unique(initial(term), k, i as nat);
        lemma_run_final(initial(term), i as nat, max_steps as nat);
        lemma_result_closed_normal(term);
        lemma_result_is_normal_form(term);
    }
    match &m.closure {
        Closure::Res { term: t, .. } => Some(copy_term(t)),
        _ => {
            proof {
                assert(false);
            }
            None
        },
    }
}

} // verus!
