//! Beta reduction of lambda terms with De Bruijn indices, as mathematics:
//! the terms here have unbounded indices, and `Term` is viewed as one.
use vstd::prelude::*;
use crate::term::{Term, abs_depth, body_of, func_of, arg_of};

verus! {

/// A lambda term with De Bruijn indices of any size.
pub enum Lam {
    Var(nat),
    Abs(Box<Lam>),
    App(Box<Lam>, Box<Lam>),
}

/// The mathematical term that a `Term` stands for.
pub open spec fn lam_of(t: Term) -> Lam
    decreases t,
{
    match t {
        Term::Var { debruijn } => Lam::Var(debruijn as nat),
        Term::Abs { body } => Lam::Abs(Box::new(lam_of(*body))),
        Term::App { func, arg } => Lam::App(Box::new(lam_of(*func)), Box::new(lam_of(*arg))),
    }
}

impl View for Term {
    type V = Lam;

    open spec fn view(&self) -> Lam {
        lam_of(*self)
    }
}

/// Adds `d` to every index of `e` that is at least `c` (the variables that
/// are free at cut-off `c`).
pub open spec fn shift(e: Lam, d: nat, c: nat) -> Lam
    decreases e,
{
    match e {
        Lam::Var(i) => if i < c {
            e
        } else {
            Lam::Var(i + d)
        },
        Lam::Abs(b) => Lam::Abs(Box::new(shift(*b, d, c + 1))),
        Lam::App(f, a) => Lam::App(Box::new(shift(*f, d, c)), Box::new(shift(*a, d, c))),
    }
}

/// Substitutes `a` for the variable with index `k` in `e`, where `e` sits
/// below `k` binders more than `a` does; the variables above `k` move one
/// binder down.
pub open spec fn subst(e: Lam, k: nat, a: Lam) -> Lam
    decreases e,
{
    match e {
        Lam::Var(i) => if i < k {
            e
        } else if i == k {
            shift(a, k, 0)
        } else {
            Lam::Var((i - 1) as nat)
        },
        Lam::Abs(b) => Lam::Abs(Box::new(subst(*b, k + 1, a))),
        Lam::App(f, x) => Lam::App(Box::new(subst(*f, k, a)), Box::new(subst(*x, k, a))),
    }
}

/// One step of beta reduction, anywhere in the term: `(λ b) a` becomes `b`
/// with `a` substituted for its bound variable.
pub open spec fn beta(e: Lam, f: Lam) -> bool
    decreases e,
{
    match e {
        Lam::Var(_) => false,
        Lam::Abs(b) => match f {
            Lam::Abs(c) => beta(*b, *c),
            _ => false,
        },
        Lam::App(g, a) => {
            ||| (match *g {
                Lam::Abs(body) => f == subst(*body, 0, *a),
                _ => false,
            })
            ||| (match f {
                Lam::App(g2, a2) => (beta(*g, *g2) && *a == *a2) || (*g == *g2 && beta(*a, *a2)),
                _ => false,
            })
        },
    }
}

/// A sequence of terms in which each one reduces to the next in one step.
pub open spec fn is_reduction(tr: Seq<Lam>) -> bool {
    &&& tr.len() >= 1
    &&& forall|i: int| 0 <= i < tr.len() - 1 ==> beta(#[trigger] tr[i], tr[i + 1])
}

/// `e` reduces to `f` in zero or more steps.
pub open spec fn reduces(e: Lam, f: Lam) -> bool {
    exists|tr: Seq<Lam>| #[trigger] is_reduction(tr) && tr[0] == e && tr.last() == f
}

/// No step of beta reduction applies to `e`.
pub open spec fn irreducible(e: Lam) -> bool {
    forall|f: Lam| !#[trigger] beta(e, f)
}

/// Different terms stand for different mathematical terms.
pub proof fn lemma_lam_of_injective(t1: Term, t2: Term)
    requires
        lam_of(t1) == lam_of(t2),
    ensures
        t1 == t2,
    decreases t1,
{
    match t1 {
        Term::Var { .. } => {},
        Term::Abs { .. } => {
            lemma_lam_of_injective(body_of(t1), body_of(t2));
        },
        Term::App { .. } => {
            lemma_lam_of_injective(func_of(t1), func_of(t2));
            lemma_lam_of_injective(arg_of(t1), arg_of(t2));
        },
    }
}

/// One step of normal-order reduction: the leftmost, outermost redex is
/// contracted.
pub open spec fn normal_order_step(e: Lam, f: Lam) -> bool
    decreases e,
{
    match e {
        Lam::Var(_) => false,
        Lam::Abs(b) => match f {
            Lam::Abs(c) => normal_order_step(*b, *c),
            _ => false,
        },
        Lam::App(g, a) => match *g {
            Lam::Abs(body) => f == subst(*body, 0, *a),
            _ => match f {
                Lam::App(g2, a2) => if irreducible(*g) {
                    *g == *g2 && normal_order_step(*a, *a2)
                } else {
                    normal_order_step(*g, *g2) && *a == *a2
                },
                _ => false,
            },
        },
    }
}

/// A sequence of terms in which each one reduces to the next by a step of
/// normal-order reduction.
pub open spec fn is_normal_order_reduction(tr: Seq<Lam>) -> bool {
    &&& tr.len() >= 1
    &&& forall|i: int| 0 <= i < tr.len() - 1 ==> normal_order_step(#[trigger] tr[i], tr[i + 1])
}

/// `e` reduces to `f` in zero or more steps of normal-order reduction.
pub open spec fn reduces_normal_order(e: Lam, f: Lam) -> bool {
    exists|tr: Seq<Lam>| #[trigger] is_normal_order_reduction(tr) && tr[0] == e && tr.last() == f
}

/// A normal-order step is a beta step.
pub proof fn lemma_normal_order_step_is_beta(e: Lam, f: Lam)
    requires
        normal_order_step(e, f),
    ensures
        beta(e, f),
    decreases e,
{
    match e {
        Lam::Var(_) => {},
        Lam::Abs(b) => {
            if let Lam::Abs(c) = f {
                lemma_normal_order_step_is_beta(*b, *c);
            }
        },
        Lam::App(g, a) => {
            if !(*g is Abs) {
                if let Lam::App(g2, a2) = f {
                    if irreducible(*g) {
                        lemma_normal_order_step_is_beta(*a, *a2);
                    } else {
                        lemma_normal_order_step_is_beta(*g, *g2);
                    }
                }
            }
        },
    }
}

/// Normal-order reduction is beta reduction.
pub proof fn lemma_normal_order_reduces(e: Lam, f: Lam)
    requires
        reduces_normal_order(e, f),
    ensures
        reduces(e, f),
{
    let tr = choose|tr: Seq<Lam>| #[trigger] is_normal_order_reduction(tr) && tr[0] == e && tr.last() == f;
    assert forall|i: int| 0 <= i < tr.len() - 1 implies beta(#[trigger] tr[i], tr[i + 1]) by {
        lemma_normal_order_step_is_beta(tr[i], tr[i + 1]);
    }
    assert(is_reduction(tr));
}

pub proof fn lemma_reduces_normal_order_refl(e: Lam)
    ensures
        reduces_normal_order(e, e),
{
    let tr = seq![e];
    assert(is_normal_order_reduction(tr));
}

pub proof fn lemma_reduces_normal_order_step(e: Lam, f: Lam, g: Lam)
    requires
        reduces_normal_order(e, f),
        normal_order_step(f, g),
    ensures
        reduces_normal_order(e, g),
{
    let tr = choose|tr: Seq<Lam>| #[trigger] is_normal_order_reduction(tr) && tr[0] == e && tr.last() == f;
    let tr2 = tr.push(g);
    assert forall|i: int| 0 <= i < tr2.len() - 1 implies normal_order_step(#[trigger] tr2[i], tr2[i + 1]) by {
        if i < tr.len() - 1 {
            assert(tr2[i] == tr[i] && tr2[i + 1] == tr[i + 1]);
        }
    }
    assert(is_normal_order_reduction(tr2));
}

/// Normal-order reduction is deterministic.
pub proof fn lemma_normal_order_deterministic(e: Lam, f1: Lam, f2: Lam)
    requires
        normal_order_step(e, f1),
        normal_order_step(e, f2),
    ensures
        f1 == f2,
    decreases e,
{
    match e {
        Lam::Var(_) => {},
        Lam::Abs(b) => {
            if let (Lam::Abs(c1), Lam::Abs(c2)) = (f1, f2) {
                lemma_normal_order_deterministic(*b, *c1, *c2);
            }
        },
        Lam::App(g, a) => {
            if !(*g is Abs) {
                if let (Lam::App(g1, a1), Lam::App(g2, a2)) = (f1, f2) {
                    if irreducible(*g) {
                        lemma_normal_order_deterministic(*a, *a1, *a2);
                    } else {
                        lemma_normal_order_deterministic(*g, *g1, *g2);
                    }
                }
            }
        },
    }
}

/// The number of abstractions nested along the deepest path of a term.
pub open spec fn lam_depth(e: Lam) -> nat
    decreases e,
{
    match e {
        Lam::Var(_) => 0,
        Lam::Abs(b) => 1 + lam_depth(*b),
        Lam::App(f, a) => {
            let x = lam_depth(*f);
            let y = lam_depth(*a);
            if x >= y { x } else { y }
        },
    }
}

/// The number of nodes of a term.
pub open spec fn lam_size(e: Lam) -> nat
    decreases e,
{
    match e {
        Lam::Var(_) => 1,
        Lam::Abs(b) => 1 + lam_size(*b),
        Lam::App(f, a) => 1 + lam_size(*f) + lam_size(*a),
    }
}

/// Normal-order reduction of `e` reaches a normal form, and no term on the
/// way nests more than `usize::MAX` abstractions (the bound of a machine
/// integer that counts them).
pub open spec fn normalizes(e: Lam) -> bool {
    exists|tr: Seq<Lam>|
        #[trigger] is_normal_order_reduction(tr) && tr[0] == e && irreducible(tr.last()) && forall|
            i: int,
        |
            0 <= i < tr.len() ==> lam_depth(#[trigger] tr[i]) <= usize::MAX
}

proof fn lemma_traces_agree(t1: Seq<Lam>, t2: Seq<Lam>, i: int)
    requires
        is_normal_order_reduction(t1),
        is_normal_order_reduction(t2),
        t1[0] == t2[0],
        0 <= i < t1.len(),
        i < t2.len(),
    ensures
        t1[i] == t2[i],
    decreases i,
{
    if i > 0 {
        lemma_traces_agree(t1, t2, i - 1);
        assert(normal_order_step(t1[i - 1], t1[i]));
        assert(normal_order_step(t2[i - 1], t2[i]));
        lemma_normal_order_deterministic(t1[i - 1], t1[i], t2[i]);
    }
}

/// Normal-order reduction reaches at most one normal form.
pub proof fn lemma_normal_form_unique(e: Lam, f1: Lam, f2: Lam)
    requires
        reduces_normal_order(e, f1),
        irreducible(f1),
        reduces_normal_order(e, f2),
        irreducible(f2),
    ensures
        f1 == f2,
{
    let t1 = choose|tr: Seq<Lam>| #[trigger] is_normal_order_reduction(tr) && tr[0] == e && tr.last() == f1;
    let t2 = choose|tr: Seq<Lam>| #[trigger] is_normal_order_reduction(tr) && tr[0] == e && tr.last() == f2;
    if t1.len() < t2.len() {
        let i = t1.len() - 1;
        lemma_traces_agree(t1, t2, i);
        assert(normal_order_step(t2[i], t2[i + 1]));
        lemma_normal_order_step_is_beta(t2[i], t2[i + 1]);
        assert(!beta(f1, t2[i + 1]));
    } else if t2.len() < t1.len() {
        let i = t2.len() - 1;
        lemma_traces_agree(t1, t2, i);
        assert(normal_order_step(t1[i], t1[i + 1]));
        lemma_normal_order_step_is_beta(t1[i], t1[i + 1]);
        assert(!beta(f2, t1[i + 1]));
    } else {
        lemma_traces_agree(t1, t2, t1.len() - 1);
    }
}

pub proof fn lemma_lam_depth(t: Term)
    ensures
        lam_depth(lam_of(t)) == abs_depth(t),
    decreases t,
{
    match t {
        Term::Var { .. } => {},
        Term::Abs { .. } => lemma_lam_depth(body_of(t)),
        Term::App { .. } => {
            lemma_lam_depth(func_of(t));
            lemma_lam_depth(arg_of(t));
        },
    }
}


/// A term on the normal-order way from `e` to its normal form reduces to
/// that normal form.
pub proof fn lemma_on_the_way(e: Lam, m: Lam, nf: Lam)
    requires
        reduces_normal_order(e, m),
        reduces_normal_order(e, nf),
        irreducible(nf),
    ensures
        reduces_normal_order(m, nf),
{
    let tm = choose|tr: Seq<Lam>| #[trigger] is_normal_order_reduction(tr) && tr[0] == e && tr.last() == m;
    let tn = choose|tr: Seq<Lam>| #[trigger] is_normal_order_reduction(tr) && tr[0] == e && tr.last() == nf;
    if tm.len() > tn.len() {
        let i = tn.len() - 1;
        lemma_traces_agree(tm, tn, i);
        assert(normal_order_step(tm[i], tm[i + 1]));
        lemma_normal_order_step_is_beta(tm[i], tm[i + 1]);
        assert(!beta(nf, tm[i + 1]));
    }
    let j = tm.len() - 1;
    lemma_traces_agree(tm, tn, j);
    let rest = tn.subrange(j, tn.len() as int);
    assert forall|i: int| 0 <= i < rest.len() - 1 implies normal_order_step(#[trigger] rest[i], rest[i + 1]) by {
        assert(rest[i] == tn[j + i] && rest[i + 1] == tn[j + i + 1]);
    }
    assert(is_normal_order_reduction(rest));
    assert(rest[0] == m);
    assert(rest.last() == nf);
}

/// Two terms that normal-order reduction brings to a common term have the
/// same normal form.
pub proof fn lemma_common_reduct(e1: Lam, e2: Lam, m: Lam, nf1: Lam, nf2: Lam)
    requires
        reduces_normal_order(e1, m),
        reduces_normal_order(e2, m),
        reduces_normal_order(e1, nf1),
        irreducible(nf1),
        reduces_normal_order(e2, nf2),
        irreducible(nf2),
    ensures
        nf1 == nf2,
{
    lemma_on_the_way(e1, m, nf1);
    lemma_on_the_way(e2, m, nf2);
    lemma_normal_form_unique(m, nf1, nf2);
}

} // verus!
