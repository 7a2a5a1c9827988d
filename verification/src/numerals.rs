//! Church numerals, their addition and their multiplication, reduced by
//! normal-order reduction and evaluated by the machine.
use std::rc::Rc;
use vstd::prelude::*;
use crate::term::{Term, closed, scoped};
use crate::beta::{
    Lam, lam_of, shift, subst, beta, irreducible, normal_order_step, normalizes,
    is_normal_order_reduction, lam_depth, reduces_normal_order, lemma_normal_form_unique,
    lemma_lam_of_injective,
};
use crate::machine::rules::{halts, machine_result};
use crate::machine::readback::lemma_result_is_normal_form;
use crate::machine::halting::lemma_normalizes_halts;

verus! {

/// `f` applied `k` times: `f (f (... (f x)))`.
pub open spec fn apps(k: nat, f: Lam, x: Lam) -> Lam
    decreases k,
{
    if k == 0 {
        x
    } else {
        Lam::App(Box::new(f), Box::new(apps((k - 1) as nat, f, x)))
    }
}

pub open spec fn var(i: nat) -> Lam {
    Lam::Var(i)
}

pub open spec fn lam(b: Lam) -> Lam {
    Lam::Abs(Box::new(b))
}

pub open spec fn app(f: Lam, a: Lam) -> Lam {
    Lam::App(Box::new(f), Box::new(a))
}

/// The Church numeral `k`: `λf. λx. f (f (... (f x)))` with `k` applications.
pub open spec fn church(k: nat) -> Lam {
    lam(lam(apps(k, var(1), var(0))))
}

/// Addition of Church numerals: `λm. λn. λf. λx. ((m f) ((n f) x))`.
pub open spec fn church_add() -> Lam {
    lam(lam(lam(lam(app(app(var(3), var(1)), app(app(var(2), var(1)), var(0)))))))
}

/// Multiplication of Church numerals: `λm. λn. λf. λx. (m (n f)) x`.
pub open spec fn church_mul() -> Lam {
    lam(lam(lam(lam(app(app(var(3), app(var(2), var(1))), var(0))))))
}

// The same terms as `Term`s.

pub open spec fn v(i: usize) -> Term {
    Term::Var { debruijn: i }
}

pub open spec fn ab(b: Term) -> Term {
    Term::Abs { body: Rc::new(b) }
}

pub open spec fn ap(f: Term, a: Term) -> Term {
    Term::App { func: Rc::new(f), arg: Rc::new(a) }
}

pub open spec fn apps_term(k: nat) -> Term
    decreases k,
{
    if k == 0 {
        v(0)
    } else {
        ap(v(1), apps_term((k - 1) as nat))
    }
}

/// The Church numeral `k` as a term.
pub open spec fn church_term(k: nat) -> Term {
    ab(ab(apps_term(k)))
}

/// The addition of Church numerals as a term.
pub open spec fn church_add_term() -> Term {
    ab(ab(ab(ab(ap(ap(v(3), v(1)), ap(ap(v(2), v(1)), v(0)))))))
}

/// The term that adds the Church numerals `m` and `n`.
pub open spec fn add_term(m: nat, n: nat) -> Term {
    ap(ap(church_add_term(), church_term(m)), church_term(n))
}

/// The multiplication of Church numerals as a term.
pub open spec fn church_mul_term() -> Term {
    ab(ab(ab(ab(ap(ap(v(3), ap(v(2), v(1))), v(0))))))
}

/// The term that multiplies the Church numerals `m` and `n`.
pub open spec fn mul_term(m: nat, n: nat) -> Term {
    ap(ap(church_mul_term(), church_term(m)), church_term(n))
}

proof fn lemma_apps_term(k: nat)
    ensures
        lam_of(apps_term(k)) == apps(k, var(1), var(0)),
        scoped(apps_term(k), 2),
    decreases k,
{
    reveal_with_fuel(lam_of, 2);
    reveal_with_fuel(scoped, 2);
    if k > 0 {
        lemma_apps_term((k - 1) as nat);
    }
}

proof fn lemma_church_term(k: nat)
    ensures
        lam_of(church_term(k)) == church(k),
        closed(church_term(k)),
{
    reveal_with_fuel(lam_of, 3);
    reveal_with_fuel(scoped, 3);
    lemma_apps_term(k);
}

/// `e` has no free variable at or above `c`.
spec fn lam_scoped(e: Lam, c: nat) -> bool
    decreases e,
{
    match e {
        Lam::Var(i) => i < c,
        Lam::Abs(b) => lam_scoped(*b, c + 1),
        Lam::App(f, a) => lam_scoped(*f, c) && lam_scoped(*a, c),
    }
}

proof fn lemma_lam_scoped_mono(e: Lam, c: nat, d: nat)
    requires
        lam_scoped(e, c),
        c <= d,
    ensures
        lam_scoped(e, d),
    decreases e,
{
    match e {
        Lam::Var(_) => {},
        Lam::Abs(b) => lemma_lam_scoped_mono(*b, c + 1, d + 1),
        Lam::App(f, a) => {
            lemma_lam_scoped_mono(*f, c, d);
            lemma_lam_scoped_mono(*a, c, d);
        },
    }
}

proof fn lemma_shift_scoped(e: Lam, d: nat, c: nat)
    requires
        lam_scoped(e, c),
    ensures
        shift(e, d, c) == e,
    decreases e,
{
    match e {
        Lam::Var(_) => {},
        Lam::Abs(b) => lemma_shift_scoped(*b, d, c + 1),
        Lam::App(f, a) => {
            lemma_shift_scoped(*f, d, c);
            lemma_shift_scoped(*a, d, c);
        },
    }
}

proof fn lemma_shift_zero(e: Lam, c: nat)
    ensures
        shift(e, 0, c) == e,
    decreases e,
{
    match e {
        Lam::Var(_) => {},
        Lam::Abs(b) => lemma_shift_zero(*b, c + 1),
        Lam::App(f, a) => {
            lemma_shift_zero(*f, c);
            lemma_shift_zero(*a, c);
        },
    }
}

proof fn lemma_subst_scoped(e: Lam, k: nat, a: Lam)
    requires
        lam_scoped(e, k),
    ensures
        subst(e, k, a) == e,
    decreases e,
{
    match e {
        Lam::Var(_) => {},
        Lam::Abs(b) => lemma_subst_scoped(*b, k + 1, a),
        Lam::App(f, x) => {
            lemma_subst_scoped(*f, k, a);
            lemma_subst_scoped(*x, k, a);
        },
    }
}

proof fn lemma_apps_scoped(k: nat, c: nat)
    requires
        c >= 2,
    ensures
        lam_scoped(apps(k, var(1), var(0)), c),
    decreases k,
{
    reveal_with_fuel(lam_scoped, 2);
    if k > 0 {
        lemma_apps_scoped((k - 1) as nat, c);
    }
}

proof fn lemma_church_scoped(k: nat)
    ensures
        lam_scoped(church(k), 0),
{
    reveal_with_fuel(lam_scoped, 3);
    lemma_apps_scoped(k, 2);
}

proof fn lemma_subst_apps(k: nat, f: Lam, x: Lam, j: nat, a: Lam)
    ensures
        subst(apps(k, f, x), j, a) == apps(k, subst(f, j, a), subst(x, j, a)),
    decreases k,
{
    if k > 0 {
        lemma_subst_apps((k - 1) as nat, f, x, j, a);
    }
}

proof fn lemma_apps_concat(m: nat, n: nat, f: Lam, x: Lam)
    ensures
        apps(m, f, apps(n, f, x)) == apps(m + n, f, x),
    decreases m,
{
    if m > 0 {
        lemma_apps_concat((m - 1) as nat, n, f, x);
        assert((m + n - 1) as nat == (m - 1) as nat + n);
    }
}

/// A normal-order step in the innermost argument of `f (f (... (f x)))`,
/// where `f` is a variable.
proof fn lemma_apps_step(k: nat, i: nat, x: Lam, y: Lam)
    requires
        normal_order_step(x, y),
    ensures
        normal_order_step(apps(k, var(i), x), apps(k, var(i), y)),
    decreases k,
{
    assert forall|f: Lam| !#[trigger] beta(var(i), f) by {}
    assert(irreducible(var(i)));
    if k > 0 {
        lemma_apps_step((k - 1) as nat, i, x, y);
    }
}

proof fn lemma_apps_irreducible(k: nat)
    ensures
        irreducible(apps(k, var(1), var(0))),
    decreases k,
{
    assert forall|f: Lam| !#[trigger] beta(var(0), f) by {}
    assert forall|f: Lam| !#[trigger] beta(var(1), f) by {}
    if k > 0 {
        let r = apps((k - 1) as nat, var(1), var(0));
        lemma_apps_irreducible((k - 1) as nat);
        assert forall|f: Lam| !#[trigger] beta(apps(k, var(1), var(0)), f) by {
            if let Lam::App(g2, a2) = f {
                assert(!beta(var(1), *g2));
                assert(!beta(r, *a2));
            }
        }
    }
}

proof fn lemma_church_irreducible(k: nat)
    ensures
        irreducible(church(k)),
{
    lemma_apps_irreducible(k);
    let b = apps(k, var(1), var(0));
    assert forall|f: Lam| !#[trigger] beta(lam(b), f) by {
        if let Lam::Abs(c) = f {
            assert(!beta(b, *c));
        }
    }
    assert forall|f: Lam| !#[trigger] beta(church(k), f) by {
        if let Lam::Abs(c) = f {
            assert(!beta(lam(b), *c));
        }
    }
}

proof fn lemma_apps_depth(k: nat, f: Lam, x: Lam)
    requires
        lam_depth(f) == 0,
    ensures
        lam_depth(apps(k, f, x)) == lam_depth(x),
    decreases k,
{
    if k > 0 {
        lemma_apps_depth((k - 1) as nat, f, x);
    }
}

/// The terms that normal-order reduction goes through from `add m n` to the
/// numeral `m + n`.
spec fn add_trace(m: nat, n: nat) -> Seq<Lam> {
    let mm = church(m);
    let nn = church(n);
    let x = app(app(nn, var(1)), var(0));
    let x1 = app(lam(apps(n, var(2), var(0))), var(0));
    seq![
        app(app(church_add(), mm), nn),
        app(lam(lam(lam(app(app(mm, var(1)), app(app(var(2), var(1)), var(0)))))), nn),
        lam(lam(app(app(mm, var(1)), x))),
        lam(lam(app(lam(apps(m, var(2), var(0))), x))),
        lam(lam(apps(m, var(1), x))),
        lam(lam(apps(m, var(1), x1))),
        lam(lam(apps(m, var(1), apps(n, var(1), var(0))))),
    ]
}

proof fn lemma_add_trace_start(m: nat, n: nat)
    ensures
        normal_order_step(add_trace(m, n)[0], add_trace(m, n)[1]),
        normal_order_step(add_trace(m, n)[1], add_trace(m, n)[2]),
{
    let tr = add_trace(m, n);
    let mm = church(m);
    let nn = church(n);
    lemma_church_scoped(m);
    lemma_church_scoped(n);
    let body = app(app(var(3), var(1)), app(app(var(2), var(1)), var(0)));
    let a1 = lam(lam(lam(app(app(mm, var(1)), app(app(var(2), var(1)), var(0))))));
    // the sum takes its first argument
    assert(normal_order_step(tr[0], tr[1])) by {
        lemma_shift_scoped(mm, 3, 0);
        assert(subst(lam(lam(lam(body))), 0, mm) == a1) by {
            reveal_with_fuel(subst, 7);
        }
        assert(beta(app(church_add(), mm), a1));
        assert(!irreducible(app(church_add(), mm)));
        reveal_with_fuel(normal_order_step, 2);
    }
    // and its second one
    assert(normal_order_step(tr[1], tr[2])) by {
        lemma_shift_scoped(nn, 2, 0);
        lemma_lam_scoped_mono(mm, 0, 2);
        lemma_subst_scoped(mm, 2, nn);
        assert(subst(lam(lam(app(app(mm, var(1)), app(app(var(2), var(1)), var(0))))), 0, nn)
            == tr[2]) by {
            reveal_with_fuel(subst, 6);
        }
    }
}

proof fn lemma_add_trace_middle(m: nat, n: nat)
    ensures
        normal_order_step(add_trace(m, n)[2], add_trace(m, n)[3]),
        normal_order_step(add_trace(m, n)[3], add_trace(m, n)[4]),
{
    let tr = add_trace(m, n);
    let mm = church(m);
    let nn = church(n);
    let x = app(app(nn, var(1)), var(0));
    let c = app(app(mm, var(1)), x);
    let inner = lam(apps(m, var(2), var(0)));
    // the numeral m takes `f`
    assert(normal_order_step(tr[2], tr[3])) by {
        lemma_subst_apps(m, var(1), var(0), 1, var(1));
        assert(subst(lam(apps(m, var(1), var(0))), 0, var(1)) == inner);
        assert(beta(app(mm, var(1)), inner));
        assert(!irreducible(app(mm, var(1))));
        assert(normal_order_step(app(mm, var(1)), inner));
        assert(normal_order_step(c, app(inner, x))) by {
            reveal_with_fuel(normal_order_step, 2);
        }
        assert(normal_order_step(lam(c), lam(app(inner, x))));
    }
    // and then `n f x`
    assert(normal_order_step(tr[3], tr[4])) by {
        lemma_subst_apps(m, var(2), var(0), 0, x);
        lemma_shift_zero(x, 0);
        assert(subst(apps(m, var(2), var(0)), 0, x) == apps(m, var(1), x));
        assert(normal_order_step(app(inner, x), apps(m, var(1), x)));
        assert(normal_order_step(lam(app(inner, x)), lam(apps(m, var(1), x))));
    }
}

proof fn lemma_add_trace_end(m: nat, n: nat)
    ensures
        normal_order_step(add_trace(m, n)[4], add_trace(m, n)[5]),
        normal_order_step(add_trace(m, n)[5], add_trace(m, n)[6]),
{
    let tr = add_trace(m, n);
    let nn = church(n);
    let x = app(app(nn, var(1)), var(0));
    let x1 = app(lam(apps(n, var(2), var(0))), var(0));
    // inside, the numeral n takes `f`
    assert(normal_order_step(tr[4], tr[5])) by {
        lemma_subst_apps(n, var(1), var(0), 1, var(1));
        assert(subst(lam(apps(n, var(1), var(0))), 0, var(1)) == lam(apps(n, var(2), var(0))));
        assert(beta(app(nn, var(1)), lam(apps(n, var(2), var(0)))));
        assert(!irreducible(app(nn, var(1))));
        assert(normal_order_step(app(nn, var(1)), lam(apps(n, var(2), var(0)))));
        assert(normal_order_step(x, x1)) by {
            reveal_with_fuel(normal_order_step, 2);
        }
        lemma_apps_step(m, 1, x, x1);
        assert(normal_order_step(lam(apps(m, var(1), x)), lam(apps(m, var(1), x1))));
    }
    // and `x`
    assert(normal_order_step(tr[5], tr[6])) by {
        lemma_subst_apps(n, var(2), var(0), 0, var(0));
        lemma_shift_zero(var(0), 0);
        assert(subst(apps(n, var(2), var(0)), 0, var(0)) == apps(n, var(1), var(0)));
        assert(normal_order_step(x1, apps(n, var(1), var(0))));
        lemma_apps_step(m, 1, x1, apps(n, var(1), var(0)));
        assert(normal_order_step(
            lam(apps(m, var(1), x1)),
            lam(apps(m, var(1), apps(n, var(1), var(0)))),
        ));
    }
}

#[verifier::spinoff_prover]
#[verifier::rlimit(40)]
proof fn lemma_add_trace_depth(m: nat, n: nat)
    ensures
        forall|i: int| 0 <= i < add_trace(m, n).len() ==> lam_depth(#[trigger] add_trace(m, n)[i]) <= 5,
{
    let tr = add_trace(m, n);
    let mm = church(m);
    let nn = church(n);
    let x = app(app(nn, var(1)), var(0));
    let x1 = app(lam(apps(n, var(2), var(0))), var(0));
    lemma_apps_depth(m, var(1), var(0));
    lemma_apps_depth(n, var(1), var(0));
    lemma_apps_depth(m, var(2), var(0));
    lemma_apps_depth(n, var(2), var(0));
    lemma_apps_depth(m, var(1), x);
    lemma_apps_depth(m, var(1), x1);
    lemma_apps_depth(m, var(1), apps(n, var(1), var(0)));
    assert(lam_depth(mm) == 2 && lam_depth(nn) == 2) by {
        reveal_with_fuel(lam_depth, 3);
    }
    assert(lam_depth(x) == 2 && lam_depth(x1) == 1) by {
        reveal_with_fuel(lam_depth, 3);
    }
    assert(lam_depth(church_add()) == 4) by {
        reveal_with_fuel(lam_depth, 8);
    }
    assert(lam_depth(tr[0]) == 4) by {
        reveal_with_fuel(lam_depth, 3);
    }
    assert(lam_depth(tr[1]) == 5) by {
        reveal_with_fuel(lam_depth, 7);
    }
    assert(lam_depth(tr[2]) == 4) by {
        reveal_with_fuel(lam_depth, 5);
    }
    assert(lam_depth(tr[3]) == 4) by {
        reveal_with_fuel(lam_depth, 4);
    }
    assert(lam_depth(tr[4]) == 4) by {
        reveal_with_fuel(lam_depth, 3);
    }
    assert(lam_depth(tr[5]) == 3) by {
        reveal_with_fuel(lam_depth, 3);
    }
    assert(lam_depth(tr[6]) == 2) by {
        reveal_with_fuel(lam_depth, 3);
    }
}

/// Normal-order reduction adds Church numerals: `add m n` reduces to the
/// numeral `m + n`.
pub proof fn lemma_church_add_reduces(m: nat, n: nat)
    ensures
        normalizes(app(app(church_add(), church(m)), church(n))),
        reduces_normal_order(app(app(church_add(), church(m)), church(n)), church(m + n)),
{
    let tr = add_trace(m, n);
    lemma_add_trace_start(m, n);
    lemma_add_trace_middle(m, n);
    lemma_add_trace_end(m, n);
    assert(is_normal_order_reduction(tr)) by {
        assert forall|i: int| 0 <= i < tr.len() - 1 implies normal_order_step(
            #[trigger] tr[i],
            tr[i + 1],
        ) by {
            if i == 0 {
            } else if i == 1 {
            } else if i == 2 {
            } else if i == 3 {
            } else if i == 4 {
            } else {
            }
        }
    }
    lemma_apps_concat(m, n, var(1), var(0));
    assert(tr.last() == church(m + n));
    lemma_church_irreducible(m + n);
    lemma_add_trace_depth(m, n);
}

/// Evaluating the sum of the Church numerals `m` and `n` gives the Church
/// numeral `m + n`.
pub proof fn lemma_eval_church_add(m: nat, n: nat)
    ensures
        closed(add_term(m, n)),
        normalizes(lam_of(add_term(m, n))),
        halts(add_term(m, n)),
        machine_result(add_term(m, n)) == church_term(m + n),
{
    lemma_church_term(m);
    lemma_church_term(n);
    lemma_church_term(m + n);
    assert(lam_of(church_add_term()) == church_add()) by {
        reveal_with_fuel(lam_of, 8);
    }
    assert(lam_of(add_term(m, n)) == app(app(church_add(), church(m)), church(n))) by {
        reveal_with_fuel(lam_of, 3);
    }
    lemma_church_add_reduces(m, n);
    assert(closed(church_add_term())) by {
        reveal_with_fuel(scoped, 8);
    }
    assert(closed(add_term(m, n))) by {
        reveal_with_fuel(scoped, 3);
    }
    lemma_normalizes_halts(add_term(m, n));
    lemma_result_is_normal_form(add_term(m, n));
    lemma_church_irreducible(m + n);
    lemma_normal_form_unique(
        lam_of(add_term(m, n)),
        church(m + n),
        lam_of(machine_result(add_term(m, n))),
    );
    lemma_lam_of_injective(church_term(m + n), machine_result(add_term(m, n)));
}

// ---------------------------------------------------------------------------
// Multiplication
// ---------------------------------------------------------------------------

/// `n f`, the numeral `n` applied to the outer bound variable `f`.
spec fn nf(n: nat) -> Lam {
    app(church(n), var(1))
}

/// `n f` after one step: `λx. f (f (... (f x)))` with `f` one binder up.
spec fn nf_body(n: nat) -> Lam {
    lam(apps(n, var(2), var(0)))
}

/// `λf. λx. f^j ((n f)^k x)`: `j` applications of `f` done, `k` copies of
/// `n f` still to reduce.
spec fn mul_state(n: nat, j: nat, k: nat) -> Lam {
    lam(lam(apps(j, var(1), apps(k, nf(n), var(0)))))
}

/// The state between two states: the outermost copy of `n f` has taken its
/// `f`.
spec fn mul_mid(n: nat, j: nat, k: nat) -> Lam {
    lam(lam(apps(j, var(1), app(nf_body(n), apps((k - 1) as nat, nf(n), var(0))))))
}

/// The normal-order trace from `mul_state(n, j, k)` to `mul_state(n, j + n * k, 0)`.
spec fn mul_tail(n: nat, j: nat, k: nat) -> Seq<Lam>
    decreases k,
{
    if k == 0 {
        seq![mul_state(n, j, 0)]
    } else {
        seq![mul_state(n, j, k), mul_mid(n, j, k)] + mul_tail(n, j + n, (k - 1) as nat)
    }
}

proof fn lemma_nf_step(n: nat)
    ensures
        normal_order_step(nf(n), nf_body(n)),
        !irreducible(nf(n)),
{
    lemma_subst_apps(n, var(1), var(0), 1, var(1));
    assert(subst(lam(apps(n, var(1), var(0))), 0, var(1)) == nf_body(n));
    assert(beta(nf(n), nf_body(n)));
}

proof fn lemma_mul_state_steps(n: nat, j: nat, k: nat)
    requires
        k > 0,
    ensures
        normal_order_step(mul_state(n, j, k), mul_mid(n, j, k)),
        normal_order_step(mul_mid(n, j, k), mul_state(n, j + n, (k - 1) as nat)),
{
    let r = apps((k - 1) as nat, nf(n), var(0));
    lemma_nf_step(n);
    assert(normal_order_step(app(nf(n), r), app(nf_body(n), r))) by {
        reveal_with_fuel(normal_order_step, 2);
    }
    lemma_apps_step(j, 1, app(nf(n), r), app(nf_body(n), r));
    let a = apps(j, var(1), app(nf(n), r));
    let b = apps(j, var(1), app(nf_body(n), r));
    assert(normal_order_step(lam(a), lam(b)));
    assert(normal_order_step(mul_state(n, j, k), mul_mid(n, j, k)));
    lemma_subst_apps(n, var(2), var(0), 0, r);
    lemma_shift_zero(r, 0);
    assert(subst(apps(n, var(2), var(0)), 0, r) == apps(n, var(1), r));
    assert(normal_order_step(app(nf_body(n), r), apps(n, var(1), r)));
    lemma_apps_step(j, 1, app(nf_body(n), r), apps(n, var(1), r));
    lemma_apps_concat(j, n, var(1), r);
    let c = apps(j + n, var(1), r);
    assert(normal_order_step(lam(b), lam(c)));
}

proof fn lemma_apps_depth_le(k: nat, f: Lam, x: Lam, d: nat)
    requires
        lam_depth(f) <= d,
        lam_depth(x) <= d,
    ensures
        lam_depth(apps(k, f, x)) <= d,
    decreases k,
{
    if k > 0 {
        lemma_apps_depth_le((k - 1) as nat, f, x, d);
    }
}

proof fn lemma_mul_depths(n: nat)
    ensures
        lam_depth(nf(n)) == 2,
        lam_depth(nf_body(n)) == 1,
{
    lemma_apps_depth(n, var(1), var(0));
    lemma_apps_depth(n, var(2), var(0));
    reveal_with_fuel(lam_depth, 4);
}

proof fn lemma_mul_tail(n: nat, j: nat, k: nat)
    ensures
        is_normal_order_reduction(mul_tail(n, j, k)),
        mul_tail(n, j, k)[0] == mul_state(n, j, k),
        mul_tail(n, j, k).last() == mul_state(n, j + n * k, 0),
        forall|i: int| 0 <= i < mul_tail(n, j, k).len() ==> lam_depth(#[trigger] mul_tail(n, j, k)[i]) <= 4,
    decreases k,
{
    let tr = mul_tail(n, j, k);
    lemma_mul_depths(n);
    if k == 0 {
        lemma_apps_depth(j, var(1), var(0));
        assert(lam_depth(mul_state(n, j, 0)) <= 4) by {
            reveal_with_fuel(lam_depth, 3);
        }
    } else {
        let rest = mul_tail(n, j + n, (k - 1) as nat);
        lemma_mul_tail(n, j + n, (k - 1) as nat);
        lemma_mul_state_steps(n, j, k);
        let r = apps((k - 1) as nat, nf(n), var(0));
        lemma_apps_depth_le((k - 1) as nat, nf(n), var(0), 2);
        lemma_apps_depth_le(k, nf(n), var(0), 2);
        lemma_apps_depth_le(j, var(1), apps(k, nf(n), var(0)), 2);
        assert(lam_depth(app(nf_body(n), r)) <= 2);
        lemma_apps_depth_le(j, var(1), app(nf_body(n), r), 2);
        assert(lam_depth(mul_state(n, j, k)) <= 4) by {
            reveal_with_fuel(lam_depth, 3);
        }
        assert(lam_depth(mul_mid(n, j, k)) <= 4) by {
            reveal_with_fuel(lam_depth, 3);
        }
        assert(tr == seq![mul_state(n, j, k), mul_mid(n, j, k)] + rest);
        assert forall|i: int| 0 <= i < tr.len() - 1 implies normal_order_step(
            #[trigger] tr[i],
            tr[i + 1],
        ) by {
            if i >= 2 {
                assert(tr[i] == rest[i - 2] && tr[i + 1] == rest[i - 1]);
            }
        }
        assert forall|i: int| 0 <= i < tr.len() implies lam_depth(#[trigger] tr[i]) <= 4 by {
            if i >= 2 {
                assert(tr[i] == rest[i - 2]);
            }
        }
        assert(j + n + n * (k - 1) == j + n * k) by (nonlinear_arith)
            requires
                k > 0,
        ;
    }
}

/// The normal-order trace from `mul m n` to `mul_state(n, 0, m)`, without
/// its last term.
spec fn mul_head(m: nat, n: nat) -> Seq<Lam> {
    let mm = church(m);
    let nn = church(n);
    seq![
        app(app(church_mul(), mm), nn),
        app(lam(lam(lam(app(app(mm, app(var(2), var(1))), var(0))))), nn),
        lam(lam(app(app(mm, nf(n)), var(0)))),
        lam(lam(app(lam(apps(m, app(nn, var(2)), var(0))), var(0)))),
    ]
}

proof fn lemma_mul_head_start(m: nat, n: nat)
    ensures
        normal_order_step(mul_head(m, n)[0], mul_head(m, n)[1]),
        normal_order_step(mul_head(m, n)[1], mul_head(m, n)[2]),
{
    let tr = mul_head(m, n);
    let mm = church(m);
    let nn = church(n);
    lemma_church_scoped(m);
    lemma_church_scoped(n);
    let body = app(app(var(3), app(var(2), var(1))), var(0));
    let a1 = lam(lam(lam(app(app(mm, app(var(2), var(1))), var(0)))));
    assert(normal_order_step(tr[0], tr[1])) by {
        lemma_shift_scoped(mm, 3, 0);
        assert(subst(lam(lam(lam(body))), 0, mm) == a1) by {
            reveal_with_fuel(subst, 7);
        }
        assert(beta(app(church_mul(), mm), a1));
        assert(!irreducible(app(church_mul(), mm)));
        reveal_with_fuel(normal_order_step, 2);
    }
    assert(normal_order_step(tr[1], tr[2])) by {
        lemma_shift_scoped(nn, 2, 0);
        lemma_lam_scoped_mono(mm, 0, 2);
        lemma_subst_scoped(mm, 2, nn);
        assert(subst(lam(lam(app(app(mm, app(var(2), var(1))), var(0)))), 0, nn) == tr[2]) by {
            reveal_with_fuel(subst, 6);
        }
    }
}

proof fn lemma_mul_head_end(m: nat, n: nat)
    ensures
        normal_order_step(mul_head(m, n)[2], mul_head(m, n)[3]),
        normal_order_step(mul_head(m, n)[3], mul_state(n, 0, m)),
{
    let tr = mul_head(m, n);
    let mm = church(m);
    let nn = church(n);
    lemma_church_scoped(n);
    let a2 = app(nn, var(2));
    let inner = lam(apps(m, a2, var(0)));
    assert(normal_order_step(tr[2], tr[3])) by {
        lemma_shift_scoped(nn, 1, 0);
        assert(shift(nf(n), 1, 0) == a2) by {
            reveal_with_fuel(shift, 2);
        }
        lemma_subst_apps(m, var(1), var(0), 1, nf(n));
        assert(subst(lam(apps(m, var(1), var(0))), 0, nf(n)) == inner);
        assert(beta(app(mm, nf(n)), inner));
        assert(!irreducible(app(mm, nf(n))));
        assert(normal_order_step(app(mm, nf(n)), inner));
        assert(normal_order_step(app(app(mm, nf(n)), var(0)), app(inner, var(0)))) by {
            reveal_with_fuel(normal_order_step, 2);
        }
        assert(normal_order_step(
            lam(app(app(mm, nf(n)), var(0))),
            lam(app(inner, var(0))),
        ));
    }
    assert(normal_order_step(tr[3], mul_state(n, 0, m))) by {
        lemma_subst_scoped(nn, 0, var(0));
        assert(subst(a2, 0, var(0)) == nf(n)) by {
            reveal_with_fuel(subst, 2);
        }
        lemma_shift_zero(var(0), 0);
        lemma_subst_apps(m, a2, var(0), 0, var(0));
        assert(subst(apps(m, a2, var(0)), 0, var(0)) == apps(m, nf(n), var(0)));
        assert(normal_order_step(app(inner, var(0)), apps(m, nf(n), var(0))));
        assert(normal_order_step(lam(app(inner, var(0))), lam(apps(m, nf(n), var(0)))));
        assert(apps(0, var(1), apps(m, nf(n), var(0))) == apps(m, nf(n), var(0)));
    }
}

proof fn lemma_mul_head_depth(m: nat, n: nat)
    ensures
        forall|i: int| 0 <= i < mul_head(m, n).len() ==> lam_depth(#[trigger] mul_head(m, n)[i]) <= 5,
{
    let tr = mul_head(m, n);
    let mm = church(m);
    let nn = church(n);
    lemma_apps_depth(m, var(1), var(0));
    lemma_apps_depth(n, var(1), var(0));
    assert(lam_depth(mm) == 2 && lam_depth(nn) == 2) by {
        reveal_with_fuel(lam_depth, 3);
    }
    assert(lam_depth(app(nn, var(2))) == 2) by {
        reveal_with_fuel(lam_depth, 2);
    }
    lemma_apps_depth_le(m, app(nn, var(2)), var(0), 2);
    assert(lam_depth(church_mul()) == 4) by {
        reveal_with_fuel(lam_depth, 8);
    }
    assert(lam_depth(tr[0]) == 4) by {
        reveal_with_fuel(lam_depth, 3);
    }
    assert(lam_depth(tr[1]) == 5) by {
        reveal_with_fuel(lam_depth, 7);
    }
    assert(lam_depth(tr[2]) == 4) by {
        reveal_with_fuel(lam_depth, 5);
    }
    assert(lam_depth(tr[3]) <= 5) by {
        reveal_with_fuel(lam_depth, 4);
    }
}

/// Two normal-order traces, the second starting one step after the first
/// ends, make one.
proof fn lemma_concat_reduction(a: Seq<Lam>, b: Seq<Lam>, d: nat)
    requires
        is_normal_order_reduction(a),
        is_normal_order_reduction(b),
        normal_order_step(a.last(), b[0]),
        forall|i: int| 0 <= i < a.len() ==> lam_depth(#[trigger] a[i]) <= d,
        forall|i: int| 0 <= i < b.len() ==> lam_depth(#[trigger] b[i]) <= d,
    ensures
        is_normal_order_reduction(a + b),
        (a + b)[0] == a[0],
        (a + b).last() == b.last(),
        forall|i: int| 0 <= i < (a + b).len() ==> lam_depth(#[trigger] (a + b)[i]) <= d,
{
    let tr = a + b;
    assert forall|i: int| 0 <= i < tr.len() - 1 implies normal_order_step(
        #[trigger] tr[i],
        tr[i + 1],
    ) by {
        if i < a.len() - 1 {
            assert(tr[i] == a[i] && tr[i + 1] == a[i + 1]);
        } else if i == a.len() - 1 {
            assert(tr[i] == a.last() && tr[i + 1] == b[0]);
        } else {
            assert(tr[i] == b[i - a.len()] && tr[i + 1] == b[i + 1 - a.len()]);
        }
    }
    assert forall|i: int| 0 <= i < tr.len() implies lam_depth(#[trigger] tr[i]) <= d by {
        if i < a.len() {
            assert(tr[i] == a[i]);
        } else {
            assert(tr[i] == b[i - a.len()]);
        }
    }
}

/// Normal-order reduction multiplies Church numerals: `mul m n` reduces to
/// the numeral `m * n`.
pub proof fn lemma_church_mul_reduces(m: nat, n: nat)
    ensures
        normalizes(app(app(church_mul(), church(m)), church(n))),
        reduces_normal_order(app(app(church_mul(), church(m)), church(n)), church(m * n)),
{
    let head = mul_head(m, n);
    let tail = mul_tail(n, 0, m);
    lemma_mul_head_start(m, n);
    lemma_mul_head_end(m, n);
    lemma_mul_head_depth(m, n);
    lemma_mul_tail(n, 0, m);
    assert(is_normal_order_reduction(head)) by {
        assert forall|i: int| 0 <= i < head.len() - 1 implies normal_order_step(
            #[trigger] head[i],
            head[i + 1],
        ) by {
            if i == 0 {
            } else if i == 1 {
            } else {
            }
        }
    }
    assert(forall|i: int| 0 <= i < tail.len() ==> lam_depth(#[trigger] tail[i]) <= 5);
    lemma_concat_reduction(head, tail, 5);
    let tr = head + tail;
    assert(n * m == m * n) by (nonlinear_arith);
    assert(tail.last() == church(m * n));
    lemma_church_irreducible(m * n);
    assert(forall|i: int| 0 <= i < tr.len() ==> lam_depth(#[trigger] tr[i]) <= usize::MAX);
}

/// Evaluating the product of the Church numerals `m` and `n` gives the
/// Church numeral `m * n`.
pub proof fn lemma_eval_church_mul(m: nat, n: nat)
    ensures
        closed(mul_term(m, n)),
        normalizes(lam_of(mul_term(m, n))),
        halts(mul_term(m, n)),
        machine_result(mul_term(m, n)) == church_term(m * n),
{
    lemma_church_term(m);
    lemma_church_term(n);
    lemma_church_term(m * n);
    assert(lam_of(church_mul_term()) == church_mul()) by {
        reveal_with_fuel(lam_of, 8);
    }
    assert(lam_of(mul_term(m, n)) == app(app(church_mul(), church(m)), church(n))) by {
        reveal_with_fuel(lam_of, 3);
    }
    lemma_church_mul_reduces(m, n);
    assert(closed(church_mul_term())) by {
        reveal_with_fuel(scoped, 8);
    }
    assert(closed(mul_term(m, n))) by {
        reveal_with_fuel(scoped, 3);
    }
    lemma_normalizes_halts(mul_term(m, n));
    lemma_result_is_normal_form(mul_term(m, n));
    lemma_church_irreducible(m * n);
    lemma_normal_form_unique(
        lam_of(mul_term(m, n)),
        church(m * n),
        lam_of(machine_result(mul_term(m, n))),
    );
    lemma_lam_of_injective(church_term(m * n), machine_result(mul_term(m, n)));
}

} // verus!
