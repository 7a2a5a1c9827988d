use std::rc::Rc;

use lambda_kn::eval;
use lambda_kn::format::blc;
use lambda_kn::format::blc::Token;
use lambda_kn::format::named;
use lambda_kn::Term;

fn var(n: usize) -> Term {
    Term::Var { debruijn: n }
}

fn abs(b: Term) -> Term {
    Term::Abs { body: Rc::new(b) }
}

fn app(f: Term, a: Term) -> Term {
    Term::App { func: Rc::new(f), arg: Rc::new(a) }
}

fn is_normal(t: &Term) -> bool {
    match t {
        Term::Var { .. } => true,
        Term::Abs { body } => is_normal(body),
        Term::App { func, arg } => {
            !matches!(**func, Term::Abs { .. }) && is_normal(func) && is_normal(arg)
        }
    }
}

#[test]
fn blc_rejects_malformed_input() {
    assert!(blc::try_decode("").is_none());
    assert!(blc::try_decode("0").is_none());
    assert!(blc::try_decode("2").is_none());
    assert!(blc::try_decode("1").is_none());
    assert!(blc::try_decode("001").is_none());
    assert!(blc::try_decode("0a").is_none());
    // a free variable
    assert!(blc::try_decode("10").is_none());
    assert!(blc::try_decode("00110").is_none());
    // an application without its parts
    assert!(blc::try_decode("01").is_none());
    // two terms
    assert!(blc::try_decode("00100010").is_none());
}

#[test]
fn blc_accepts_closed_terms() {
    let t = blc::try_decode("0010").unwrap();
    assert_eq!(named::encode_to_debruijn(&t), "(λ 0)");
    let t = blc::try_decode("0000110").unwrap();
    assert_eq!(named::encode_to_debruijn(&t), "(λ (λ 1))");
}

#[test]
fn blc_lex_tokens() {
    let ts = blc::lex("0001110");
    assert_eq!(ts, vec![Token::Abs, Token::App, Token::Var { debruijn: 1 }]);
    assert_eq!(blc::try_lex("0001110").unwrap(), ts);
    assert!(blc::try_lex("0001111").is_none());
    assert!(blc::try_lex("0").is_none());
    assert!(blc::try_lex("11").is_none());
    assert!(blc::try_lex("0a").is_none());
    assert_eq!(blc::lex(""), vec![]);
    // splitting an encoding gives the term's tokens in pre-order
    let t = app(abs(var(0)), abs(abs(var(1))));
    assert_eq!(
        blc::lex(&blc::encode(&t)),
        vec![Token::App, Token::Abs, Token::Var { debruijn: 0 }, Token::Abs, Token::Abs, Token::Var { debruijn: 1 }]
    );
}

#[test]
fn blc_encode_variables() {
    assert_eq!(blc::encode(&var(0)), "10");
    assert_eq!(blc::encode(&var(3)), "11110");
    assert_eq!(blc::encode(&app(abs(var(0)), var(1))), "010010110");
}

#[test]
fn blc_roundtrip() {
    let t = abs(abs(app(app(var(1), var(0)), abs(var(2)))));
    let s = blc::encode(&t);
    let back = blc::decode(&s);
    assert_eq!(blc::encode(&back), s);
    assert_eq!(named::encode_to_debruijn(&back), named::encode_to_debruijn(&t));
}

#[test]
fn named_rejects_malformed_input() {
    assert!(named::try_decode("").is_none());
    assert!(named::try_decode("(λa. b)").is_none());
    assert!(named::try_decode("a").is_none());
    assert!(named::try_decode("(λa. a").is_none());
    assert!(named::try_decode("(λa. a) ").is_none());
    assert!(named::try_decode("(λa.a)").is_none());
    assert!(named::try_decode("(λ. a)").is_none());
    assert!(named::try_decode("((λa. a))").is_none());
    assert!(named::try_decode("((λa. a) (λb. b)").is_none());
}

#[test]
fn named_innermost_binder_wins() {
    let t = named::try_decode("(λa. (λa. a))").unwrap();
    assert_eq!(named::encode_to_debruijn(&t), "(λ (λ 0))");
    let t = named::try_decode("(λx1. (λy_. (x1 y_)))").unwrap();
    assert_eq!(named::encode_to_debruijn(&t), "(λ (λ (1 0)))");
    assert_eq!(named::encode(&t), "(λa. (λb. (a b)))");
}

#[test]
fn named_long_names() {
    let mut t = var(26);
    for _ in 0..27 {
        t = abs(t);
    }
    let s = named::encode(&t);
    assert!(s.starts_with("(λa. (λb. "));
    assert!(s.contains("(λaa. a)"));
    let back = named::decode(&s);
    assert_eq!(named::encode_to_debruijn(&back), named::encode_to_debruijn(&t));
}

#[test]
fn debruijn_decimal_indices() {
    assert_eq!(named::encode_to_debruijn(&var(0)), "0");
    assert_eq!(named::encode_to_debruijn(&var(123)), "123");
    assert_eq!(named::encode_to_debruijn(&app(var(10), abs(var(9)))), "(10 (λ 9))");
}

#[test]
fn preorder_order() {
    let t = app(abs(var(0)), abs(var(1)));
    let nodes = t.preorder_nodes();
    assert_eq!(nodes.len(), 5);
    assert!(matches!(nodes[0], Term::App { .. }));
    assert!(matches!(nodes[1], Term::Abs { .. }));
    assert!(matches!(nodes[2], Term::Var { debruijn: 0 }));
    assert!(matches!(nodes[3], Term::Abs { .. }));
    assert!(matches!(nodes[4], Term::Var { debruijn: 1 }));
}

#[test]
fn preorder_traverse_action() {
    let t = app(abs(var(0)), abs(app(var(1), var(0))));
    let mut seen: Vec<String> = Vec::new();
    t.preorder_traverse(|node: &Term| seen.push(named::encode_to_debruijn(node)));
    assert_eq!(
        seen,
        vec![
            "((λ 0) (λ (1 0)))",
            "(λ 0)",
            "0",
            "(λ (1 0))",
            "(1 0)",
            "1",
            "0",
        ]
    );
}

#[test]
fn eval_result_is_normal_and_idempotent() {
    let terms = [
        "((λa. (a a)) (λa. a))",
        "(((λm. (λn. (λf. (λx. ((m (n f)) x))))) (λf. (λx. (f (f x))))) (λf. (λx. (f (f (f x))))))",
        "((λa. (λb. (b a))) (λa. (λb. (a b))))",
    ];
    for s in terms {
        let r = eval(named::decode(s));
        assert!(is_normal(&r));
        let printed = named::encode(&r);
        let again = eval(named::decode(&printed));
        assert_eq!(named::encode(&again), printed);
    }
}

#[test]
fn eval_normal_term_unchanged() {
    let s = "(λa. (λb. (a (a b))))";
    assert_eq!(named::encode(&eval(named::decode(s))), s);
    let s = "(λa. (a (λb. (λc. (b c)))))";
    assert_eq!(named::encode(&eval(named::decode(s))), s);
}

#[test]
fn eval_under_lambda() {
    // (λx. ((λy. y) x)) reduces under the binder
    let t = abs(app(abs(var(0)), var(0)));
    assert_eq!(named::encode_to_debruijn(&eval(t)), "(λ 0)");
}

#[test]
fn eval_within_bounds_the_work() {
    // omega has no normal form: the machine keeps running
    let omega = named::decode("((λa. (a a)) (λa. (a a)))");
    assert!(lambda_kn::eval_within(omega, 10000).is_none());
    let t = named::decode("((λa. a) (λb. b))");
    let r = lambda_kn::eval_within(t, 100).unwrap();
    assert_eq!(named::encode(&r), "(λa. a)");
    // too few transitions for the work
    let t = named::decode("((λa. a) (λb. b))");
    assert!(lambda_kn::eval_within(t, 1).is_none());
}

fn church(k: usize) -> Term {
    let mut body = var(0);
    for _ in 0..k {
        body = app(var(1), body);
    }
    abs(abs(body))
}

#[test]
fn eval_church_addition() {
    let add = abs(abs(abs(abs(app(
        app(var(3), var(1)),
        app(app(var(2), var(1)), var(0)),
    )))));
    for m in 0..5 {
        for n in 0..5 {
            let t = app(app(add.clone(), church(m)), church(n));
            assert_eq!(format!("{:?}", eval(t)), format!("{:?}", church(m + n)));
        }
    }
}

#[test]
fn eval_church_multiplication() {
    let mul = abs(abs(abs(abs(app(
        app(var(3), app(var(2), var(1))),
        var(0),
    )))));
    for m in 0..5 {
        for n in 0..5 {
            let t = app(app(mul.clone(), church(m)), church(n));
            assert_eq!(format!("{:?}", eval(t)), format!("{:?}", church(m * n)));
        }
    }
}
