use std::rc::Rc;

use lambda_kn::eval;
use lambda_kn::format::blc;
use lambda_kn::format::named;
use lambda_kn::Term;

struct ConvertTestCase {
    blc: &'static str,
    debruijn: &'static str,
    named: &'static str,
}

/// Conversions (lexing, parsing and printing) from and to the notations.
/// Cases from https://tromp.github.io/cl/Binary_lambda_calculus.html and
/// https://justine.lol/lambda/.
#[test]
fn test_convert() {
    let cases = [
        ConvertTestCase {
            blc: "0010",
            debruijn: "(λ 0)",
            named: "(λa. a)",
        },
        ConvertTestCase {
            blc: "010001101000011010",
            debruijn: "((λ (0 0)) (λ (0 0)))",
            named: "((λa. (a a)) (λa. (a a)))",
        },
        ConvertTestCase {
            blc: "000000000101111101100101111011010",
            debruijn: "(λ (λ (λ (λ ((3 1) ((2 1) 0))))))",
            named: "(λa. (λb. (λc. (λd. ((a c) ((b c) d))))))",
        },
        ConvertTestCase {
            blc: "00010001101000000101100000100001011000001100111101110",
            debruijn: "(λ ((λ (0 0)) (λ (λ ((0 (λ (λ 0))) (λ ((0 (λ (λ 1))) (2 2))))))))",
            named: "(λa. ((λb. (b b)) (λb. (λc. ((c (λd. (λe. e))) (λd. ((d (λe. (λf. e))) (b b))))))))",
        },
        ConvertTestCase {
            blc: "0101000110100000000101011000000000011110000101111110011110000101110011110000001111000010110110111001111100001111100001011110100111010010110011100001101100001011111000011111000011100110111101111100111101110110000110010001101000011010",
            debruijn: "(((λ (0 0)) (λ (λ (λ (((0 (λ (λ (λ (λ (2 (λ ((4 (2 (λ ((1 (2 (λ (λ (2 (λ ((0 1) 2))))))) (3 (λ (3 (λ ((2 0) (1 0)))))))))) ((0 (1 (λ (0 1)))) (λ ((3 (λ (3 (λ (1 (0 3)))))) 4))))))))))) (2 2)) 1))))) (λ (0 ((λ (0 0)) (λ (0 0))))))",
            named: "(((λa. (a a)) (λa. (λb. (λc. (((c (λd. (λe. (λf. (λg. (e (λh. ((d (f (λi. ((h (g (λj. (λk. (i (λl. ((l k) j))))))) (f (λj. (g (λk. ((i k) (j k)))))))))) ((h (g (λi. (i h)))) (λi. ((f (λj. (g (λk. (j (k h)))))) e))))))))))) (a a)) b))))) (λa. (a ((λb. (b b)) (λb. (b b))))))",
        },
    ];

    for case in cases {
        let ast = blc::decode(case.blc);
        println!("AST from binary {}", ast.to_debruijn_string());
        assert_eq!(case.blc, blc::encode(&ast));
        assert_eq!(case.debruijn, named::encode_to_debruijn(&ast));
        assert_eq!(case.named, named::encode(&ast));

        let ast = named::decode(case.named);
        println!("AST from text {}", ast.to_debruijn_string());
        assert_eq!(case.blc, blc::encode(&ast));
        assert_eq!(case.debruijn, named::encode_to_debruijn(&ast));
        assert_eq!(case.named, named::encode(&ast));
    }
}

struct EvalTestCase<'a> {
    comment: &'a str,
    term: &'a str,
    reduced: &'a str,
}

/// Beta reduction of various terms (booleans, lists and Church numerals).
#[test]
fn test_eval() {
    let cases = [
        EvalTestCase {
            comment: "I",
            term: "(λa. a)",
            reduced: "(λa. a)",
        },
        EvalTestCase {
            comment: "(ω I)",
            term: "((λa. (a a)) (λa. a))",
            reduced: "(λa. a)",
        },
        EvalTestCase {
            comment: "((I I) I)",
            term: "(((λa. a) (λa. a)) (λa. a))",
            reduced: "(λa. a)",
        },
        EvalTestCase {
            comment: "(false I)",
            term: "((λa. (λb. b)) (λa. a))",
            reduced: "(λa. a)",
        },
        EvalTestCase {
            comment: "(true I)",
            term: "((λa. (λb. a)) (λa. a))",
            reduced: "(λa. (λb. b))",
        },
        EvalTestCase {
            comment: "((true I) I)",
            term: "(((λa. (λb. a)) (λa. a)) (λa. a))",
            reduced: "(λa. a)",
        },
        EvalTestCase {
            comment: "-",
            term: "((λa. (λb. (a b))) (λa. a))",
            reduced: "(λa. a)",
        },
        EvalTestCase {
            comment: "-",
            term: "((λa. (λb. (b a))) (λa. (λb. (a b))))",
            reduced: "(λa. (a (λb. (λc. (b c)))))",
        },
        EvalTestCase {
            comment: "(($AND $TRUE) $FALSE)",
            term: "(((λp. (λq. ((p q) p))) (λt. (λf. t))) (λt. (λf. f)))",
            reduced: "(λa. (λb. b))",
        },
        EvalTestCase {
            comment: "($NOT (($AND $TRUE) $FALSE))",
            term: "((λp. (λa. (λb. ((p b) a)))) (((λp. (λq. ((p q) p))) (λt. (λf. t))) (λt. (λf. f))))",
            reduced: "(λa. (λb. a))",
        },
        EvalTestCase {
            comment: "($IF (($AND $TRUE) (($OR $TRUE) $FALSE)))",
            term: "((λp. (λa. (λb. ((p a) b)))) (((λp. (λq. ((p q) p))) (λt. (λf. t))) (((λp. (λq. ((p p) q))) (λt. (λf. t))) (λt. (λf. f)))))",
            reduced: "(λa. (λb. a))",
        },
        EvalTestCase {
            comment: "($IF (($AND $TRUE) (($AND $TRUE) $FALSE)))",
            term: "((λp. (λa. (λb. ((p a) b)))) (((λp. (λq. ((p q) p))) (λt. (λf. t))) (((λp. (λq. ((p q) p))) (λt. (λf. t))) (λt. (λf. f)))))",
            reduced: "(λa. (λb. b))",
        },
        EvalTestCase {
            comment: "(($CONS $BIT1) (($CONS $BIT1) (($CONS $BIT0) (($CONS $BIT1) $NIL)))) -- binary string: [1101]",
            term: "(((λx. (λy. (λz. ((z x) y)))) (λt. (λf. f))) (((λx. (λy. (λz. ((z x) y)))) (λt. (λf. f))) (((λx. (λy. (λz. ((z x) y)))) (λt. (λf. t))) (((λx. (λy. (λz. ((z x) y)))) (λt. (λf. f))) (λt. (λf. f))))))",
            reduced: "(λa. ((a (λb. (λc. c))) (λb. ((b (λc. (λd. d))) (λc. ((c (λd. (λe. d))) (λd. ((d (λe. (λf. f))) (λe. (λf. f))))))))))",
        },
        EvalTestCase {
            comment: "LIST=\"(($CONS $BIT1) (($CONS $BIT1) (($CONS $BIT0) (($CONS $BIT1) $NIL))))\"; echo \"($CAR $LIST)\"",
            term: "((λp. (p (λx. (λy. x)))) (((λx. (λy. (λz. ((z x) y)))) (λt. (λf. f))) (((λx. (λy. (λz. ((z x) y)))) (λt. (λf. f))) (((λx. (λy. (λz. ((z x) y)))) (λt. (λf. t))) (((λx. (λy. (λz. ((z x) y)))) (λt. (λf. f))) (λt. (λf. f)))))))",
            reduced: "(λa. (λb. b))",
        },
        EvalTestCase {
            comment: "LIST=\"(($CONS $BIT1) (($CONS $BIT1) (($CONS $BIT0) (($CONS $BIT1) $NIL))))\"; echo \"($CDR $LIST)\"",
            term: "((λp. (p (λx. (λy. y)))) (((λx. (λy. (λz. ((z x) y)))) (λt. (λf. f))) (((λx. (λy. (λz. ((z x) y)))) (λt. (λf. f))) (((λx. (λy. (λz. ((z x) y)))) (λt. (λf. t))) (((λx. (λy. (λz. ((z x) y)))) (λt. (λf. f))) (λt. (λf. f)))))))",
            reduced: "(λa. ((a (λb. (λc. c))) (λb. ((b (λc. (λd. c))) (λc. ((c (λd. (λe. e))) (λd. (λe. e))))))))",
        },
        EvalTestCase {
            comment: "LIST=\"(($CONS $BIT1) (($CONS $BIT1) (($CONS $BIT0) (($CONS $BIT1) $NIL))))\"; echo \"($CAR ($CDR $LIST))\"",
            term: "((λp. (p (λx. (λy. x)))) ((λp. (p (λx. (λy. y)))) (((λx. (λy. (λz. ((z x) y)))) (λt. (λf. f))) (((λx. (λy. (λz. ((z x) y)))) (λt. (λf. f))) (((λx. (λy. (λz. ((z x) y)))) (λt. (λf. t))) (((λx. (λy. (λz. ((z x) y)))) (λt. (λf. f))) (λt. (λf. f))))))))",
            reduced: "(λa. (λb. b))",
        },
        EvalTestCase {
            comment: "LIST=\"(($CONS $BIT1) (($CONS $BIT1) (($CONS $BIT0) (($CONS $BIT1) $NIL))))\"; echo \"($CAR ($CDR ($CDR $LIST)))\"",
            term: "((λp. (p (λx. (λy. x)))) ((λp. (p (λx. (λy. y)))) ((λp. (p (λx. (λy. y)))) (((λx. (λy. (λz. ((z x) y)))) (λt. (λf. f))) (((λx. (λy. (λz. ((z x) y)))) (λt. (λf. f))) (((λx. (λy. (λz. ((z x) y)))) (λt. (λf. t))) (((λx. (λy. (λz. ((z x) y)))) (λt. (λf. f))) (λt. (λf. f)))))))))",
            reduced: "(λa. (λb. a))",
        },
        EvalTestCase {
            comment: "LIST=\"(($CONS $BIT1) (($CONS $BIT1) (($CONS $BIT0) (($CONS $BIT1) $NIL))))\"; echo \"($CDR ($CDR ($CDR $LIST)))\"",
            term: "((λp. (p (λx. (λy. y)))) ((λp. (p (λx. (λy. y)))) ((λp. (p (λx. (λy. y)))) (((λx. (λy. (λz. ((z x) y)))) (λt. (λf. f))) (((λx. (λy. (λz. ((z x) y)))) (λt. (λf. f))) (((λx. (λy. (λz. ((z x) y)))) (λt. (λf. t))) (((λx. (λy. (λz. ((z x) y)))) (λt. (λf. f))) (λt. (λf. f)))))))))",
            reduced: "(λa. ((a (λb. (λc. c))) (λb. (λc. c))))",
        },
        EvalTestCase {
            comment: "LIST=\"(($CONS $BIT1) (($CONS $BIT1) (($CONS $BIT0) (($CONS $BIT1) $NIL))))\"; echo \"($CAR ($CDR ($CDR ($CDR $LIST))))\"",
            term: "((λp. (p (λx. (λy. x)))) ((λp. (p (λx. (λy. y)))) ((λp. (p (λx. (λy. y)))) ((λp. (p (λx. (λy. y)))) (((λx. (λy. (λz. ((z x) y)))) (λt. (λf. f))) (((λx. (λy. (λz. ((z x) y)))) (λt. (λf. f))) (((λx. (λy. (λz. ((z x) y)))) (λt. (λf. t))) (((λx. (λy. (λz. ((z x) y)))) (λt. (λf. f))) (λt. (λf. f))))))))))",
            reduced: "(λa. (λb. b))",
        },
        EvalTestCase {
            comment: "(($ADD $TWO) $FOUR)",
            term: "(((λm. (λn. (λf. (λx. ((m f) ((n f) x)))))) (λf. (λx. (f (f x))))) (λf. (λx. (f (f (f (f x)))))))",
            reduced: "(λa. (λb. (a (a (a (a (a (a b))))))))",
        },
        EvalTestCase {
            comment: "(($ADD (($ADD (($ADD $TWO) $FOUR)) $ONE)) $THREE)",
            term: "(((λm. (λn. (λf. (λx. ((m f) ((n f) x)))))) (((λm. (λn. (λf. (λx. ((m f) ((n f) x)))))) (((λm. (λn. (λf. (λx. ((m f) ((n f) x)))))) (λf. (λx. (f (f x))))) (λf. (λx. (f (f (f (f x)))))))) (λf. (λx. (f x))))) (λf. (λx. (f (f (f x))))))",
            reduced: "(λa. (λb. (a (a (a (a (a (a (a (a (a (a b))))))))))))",
        },
        EvalTestCase {
            comment: "(($ADD (($ADD $TWO) $FOUR)) (($ADD $ONE) $THREE))",
            term: "(((λm. (λn. (λf. (λx. ((m f) ((n f) x)))))) (((λm. (λn. (λf. (λx. ((m f) ((n f) x)))))) (λf. (λx. (f (f x))))) (λf. (λx. (f (f (f (f x)))))))) (((λm. (λn. (λf. (λx. ((m f) ((n f) x)))))) (λf. (λx. (f x)))) (λf. (λx. (f (f (f x)))))))",
            reduced: "(λa. (λb. (a (a (a (a (a (a (a (a (a (a b))))))))))))",
        },
        EvalTestCase {
            comment: "(($MUL $TWO) $THREE)",
            term: "(((λm. (λn. (λf. (λx. ((m (n f)) x))))) (λf. (λx. (f (f x))))) (λf. (λx. (f (f (f x))))))",
            reduced: "(λa. (λb. (a (a (a (a (a (a b))))))))",
        },
        EvalTestCase {
            comment: "(($MUL $FOUR) $THREE)",
            term: "(((λm. (λn. (λf. (λx. ((m (n f)) x))))) (λf. (λx. (f (f (f (f x))))))) (λf. (λx. (f (f (f x))))))",
            reduced: "(λa. (λb. (a (a (a (a (a (a (a (a (a (a (a (a b))))))))))))))",
        },
        EvalTestCase {
            comment: "(($ADD (($MUL $TWO) $THREE)) $FOUR)",
            term: "(((λm. (λn. (λf. (λx. ((m f) ((n f) x)))))) (((λm. (λn. (λf. (λx. ((m (n f)) x))))) (λf. (λx. (f (f x))))) (λf. (λx. (f (f (f x))))))) (λf. (λx. (f (f (f (f x)))))))",
            reduced: "(λa. (λb. (a (a (a (a (a (a (a (a (a (a b))))))))))))",
        },
        EvalTestCase {
            comment: "(($ADD $FOUR) (($MUL $THREE) $TWO))",
            term: "(((λm. (λn. (λf. (λx. ((m f) ((n f) x)))))) (λf. (λx. (f (f (f (f x))))))) (((λm. (λn. (λf. (λx. ((m (n f)) x))))) (λf. (λx. (f (f (f x)))))) (λf. (λx. (f (f x))))))",
            reduced: "(λa. (λb. (a (a (a (a (a (a (a (a (a (a b))))))))))))",
        },
    ];

    for case in cases {
        println!("comment {}", case.comment);
        let ast = named::decode(case.term);
        println!("parsed  {}", ast.to_named_string());
        println!("        {}", ast.to_debruijn_string());
        let reduced = eval(ast);
        println!("reduced {}", reduced.to_named_string());
        println!("        {}", reduced.to_debruijn_string());
        assert_eq!(case.reduced, named::encode(&reduced));
        println!();
    }
}

#[test]
fn test_main() {
    let code = "01010000000001011111011001011110110100101000000000101111101100101111011010000001110011101000000111001110011100111010010100000000010111110110010111101101000000111010000001110011100111010";
    let term = blc::decode(code);
    println!("term:           {}", term.to_named_string());
    let reduced = eval(term);
    println!("term (reduced): {}", reduced.to_named_string());
    assert_eq!(
        blc::encode(&reduced),
        "00000111001110011100111001110011100111001110011100111010"
    );
}
