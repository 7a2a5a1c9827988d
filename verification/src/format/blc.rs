//! Encoding and decoding of lambda terms in John Tromp's Binary Lambda
//! Calculus notation: an abstraction is `00` followed by its body, an
//! application is `01` followed by its function and its argument, and the
//! variable with De Bruijn index `n` is `n + 1` ones followed by a zero.
//!
//! This covers the encoding of terms only; it does not implement the input
//! and output conventions of a full BLC evaluator.
use std::rc::Rc;
use vstd::prelude::*;
use crate::term::{Term, closed, scoped, size, abs_depth, body_of, func_of, arg_of, preorder, derefs};
use crate::format::chars_of;

verus! {

// ---------------------------------------------------------------------------
// The notation
// ---------------------------------------------------------------------------

/// `k` ones.
pub open spec fn ones(k: nat) -> Seq<char> {
    Seq::new(k, |i: int| '1')
}

/// The BLC notation of a term.
pub open spec fn term_bits(t: Term) -> Seq<char>
    decreases t,
{
    match t {
        Term::Var { debruijn } => ones(debruijn as nat + 1).push('0'),
        Term::Abs { body } => seq!['0', '0'] + term_bits(*body),
        Term::App { func, arg } => seq!['0', '1'] + term_bits(*func) + term_bits(*arg),
    }
}

/// `s` is the BLC notation of a closed term.
pub open spec fn is_blc(s: Seq<char>) -> bool {
    exists|t: Term| closed(t) && #[trigger] term_bits(t) == s
}

/// A lexical token of the notation.
#[derive(Debug, PartialEq)]
pub enum Token {
    /// variable
    Var { debruijn: usize },
    /// abstraction
    Abs,
    /// application
    App,
}

/// The characters of one token.
pub open spec fn token_bits(tok: Token) -> Seq<char> {
    match tok {
        Token::Var { debruijn } => ones(debruijn as nat + 1).push('0'),
        Token::Abs => seq!['0', '0'],
        Token::App => seq!['0', '1'],
    }
}

/// The characters of a sequence of tokens.
pub open spec fn tokens_bits(ts: Seq<Token>) -> Seq<char>
    decreases ts.len(),
{
    if ts.len() == 0 {
        Seq::empty()
    } else {
        token_bits(ts[0]) + tokens_bits(ts.drop_first())
    }
}

/// `s` splits into tokens.
pub open spec fn lexable(s: Seq<char>) -> bool {
    exists|ts: Seq<Token>| #[trigger] tokens_bits(ts) == s
}

/// `p` is a prefix of `u`.
pub open spec fn is_prefix(p: Seq<char>, u: Seq<char>) -> bool {
    p.len() <= u.len() && u.take(p.len() as int) == p
}

// ---------------------------------------------------------------------------
// Lexing
// ---------------------------------------------------------------------------

proof fn lemma_tokens_bits_push(ts: Seq<Token>, t: Token)
    ensures
        tokens_bits(ts.push(t)) == tokens_bits(ts) + token_bits(t),
    decreases ts.len(),
{
    if ts.len() == 0 {
        assert(ts.push(t).drop_first() =~= Seq::<Token>::empty());
        assert(ts.push(t)[0] == t);
        assert(tokens_bits(Seq::<Token>::empty()) =~= Seq::<char>::empty());
        assert(tokens_bits(ts.push(t)) =~= token_bits(t));
    } else {
        assert(ts.push(t).drop_first() =~= ts.drop_first().push(t));
        lemma_tokens_bits_push(ts.drop_first(), t);
        assert(tokens_bits(ts.push(t)) =~= tokens_bits(ts) + token_bits(t));
    }
}

/// The notation is a prefix code: two tokens whose characters both begin
/// `u` are the same token.
proof fn lemma_token_unique(a: Token, b: Token, u: Seq<char>)
    requires
        is_prefix(token_bits(a), u),
        is_prefix(token_bits(b), u),
    ensures
        a == b,
{
    let pa = token_bits(a);
    let pb = token_bits(b);
    assert(pa[0] == u[0] && pb[0] == u[0]) by {
        assert(u.take(pa.len() as int)[0] == u[0]);
        assert(u.take(pb.len() as int)[0] == u[0]);
    }
    assert(pa[1] == u[1] && pb[1] == u[1]) by {
        assert(u.take(pa.len() as int)[1] == u[1]);
        assert(u.take(pb.len() as int)[1] == u[1]);
    }
    match (a, b) {
        (Token::Var { debruijn: n }, Token::Var { debruijn: m }) => {
            if n < m {
                assert(u.take(pa.len() as int)[n + 1] == u[n + 1]);
                assert(u.take(pb.len() as int)[n + 1] == u[n + 1]);
            } else if m < n {
                assert(u.take(pa.len() as int)[m + 1] == u[m + 1]);
                assert(u.take(pb.len() as int)[m + 1] == u[m + 1]);
            }
        },
        _ => {},
    }
}

/// The first token of a split of `u` begins `u`, and the rest splits the
/// remaining characters.
proof fn lemma_split_head(ts: Seq<Token>, u: Seq<char>)
    requires
        tokens_bits(ts) == u,
        u.len() > 0,
    ensures
        ts.len() > 0,
        is_prefix(token_bits(ts[0]), u),
        tokens_bits(ts.drop_first()) == u.skip(token_bits(ts[0]).len() as int),
{
    let p = token_bits(ts[0]);
    assert(u.take(p.len() as int) =~= p);
    assert(u.skip(p.len() as int) =~= tokens_bits(ts.drop_first()));
}

/// Once a token that begins `u` is taken off, the rest of a splittable `u`
/// splits too.
proof fn lemma_lex_step(u: Seq<char>, tk: Token)
    requires
        is_prefix(token_bits(tk), u),
        lexable(u),
    ensures
        lexable(u.skip(token_bits(tk).len() as int)),
{
    let ts = choose|ts: Seq<Token>| #[trigger] tokens_bits(ts) == u;
    lemma_split_head(ts, u);
    lemma_token_unique(ts[0], tk, u);
    assert(tokens_bits(ts.drop_first()) == u.skip(token_bits(tk).len() as int));
}

/// A nonempty `u` that no token begins does not split into tokens.
proof fn lemma_lex_fail(u: Seq<char>)
    requires
        u.len() > 0,
        forall|tk: Token| !is_prefix(#[trigger] token_bits(tk), u),
    ensures
        !lexable(u),
{
    if lexable(u) {
        let ts = choose|ts: Seq<Token>| #[trigger] tokens_bits(ts) == u;
        lemma_split_head(ts, u);
        assert(is_prefix(token_bits(ts[0]), u));
    }
}

/// Splits a string in BLC notation into tokens; `None` where it does not
/// split.
pub fn try_lex(blc: &str) -> (res: Option<Vec<Token>>)
    ensures
        match res {
            Some(ts) => tokens_bits(ts@) == blc@,
            None => !lexable(blc@),
        },
{
    let cs = chars_of(blc);
    let n = cs.len();
    let mut tokens: Vec<Token> = Vec::new();
    let mut pos: usize = 0;
    proof {
        assert(cs@.skip(0) =~= cs@);
        assert(cs@.take(0) =~= tokens_bits(tokens@));
    }
    while pos < n
        invariant
            n == cs@.len(),
            cs@ == blc@,
            pos <= n,
            tokens_bits(tokens@) == cs@.take(pos as int),
            lexable(cs@) ==> lexable(cs@.skip(pos as int)),
        decreases n - pos,
    {
        let ghost u = cs@.skip(pos as int);
        let c = cs[pos];
        assert(u[0] == c);
        if c == '0' {
            if pos + 1 >= n {
                proof {
                    assert forall|tk: Token| !is_prefix(#[trigger] token_bits(tk), u) by {}
                    lemma_lex_fail(u);
                }
                return None;
            }
            let c2 = cs[pos + 1];
            assert(u[1] == c2);
            let tk = if c2 == '0' {
                Token::Abs
            } else if c2 == '1' {
                Token::App
            } else {
                proof {
                    assert forall|tk: Token| !is_prefix(#[trigger] token_bits(tk), u) by {
                        if is_prefix(token_bits(tk), u) {
                            assert(u.take(token_bits(tk).len() as int)[1] == u[1]);
                            assert(u.take(token_bits(tk).len() as int)[0] == u[0]);
                        }
                    }
                    lemma_lex_fail(u);
                }
                return None;
            };
            proof {
                assert(u.take(2) =~= token_bits(tk));
                lemma_tokens_bits_push(tokens@, tk);
                assert(cs@.take(pos + 2int) =~= cs@.take(pos as int) + token_bits(tk));
                if lexable(cs@) {
                    lemma_lex_step(u, tk);
                    assert(u.skip(2) =~= cs@.skip(pos + 2int));
                }
            }
            tokens.push(tk);
            pos = pos + 2;
        } else if c == '1' {
            let mut j: usize = pos + 1;
            let mut debruijn: usize = 0;
            while j < n && cs[j] == '1'
                invariant
                    n == cs@.len(),
                    pos < j <= n,
                    j == pos + 1 + debruijn,
                    u == cs@.skip(pos as int),
                    forall|k: int| 0 <= k < j - pos ==> u[k] == '1',
                decreases n - j,
            {
                debruijn = debruijn + 1;
                j = j + 1;
            }
            if j >= n || cs[j] != '0' {
                proof {
                    assert forall|tk: Token| !is_prefix(#[trigger] token_bits(tk), u) by {
                        if is_prefix(token_bits(tk), u) {
                            let p = token_bits(tk);
                            assert(u.take(p.len() as int)[0] == u[0]);
                            if let Token::Var { debruijn: m } = tk {
                                if m + 1 < j - pos {
                                    assert(u.take(p.len() as int)[m + 1] == u[m + 1]);
                                } else {
                                    let k = j - pos;
                                    assert(u.take(p.len() as int)[k] == u[k]);
                                    assert(u[k] == cs@[j as int]);
                                }
                            }
                        }
                    }
                    lemma_lex_fail(u);
                }
                return None;
            }
            let tk = Token::Var { debruijn };
            proof {
                let k = j + 1 - pos;
                assert(u.take(k) =~= token_bits(tk));
                lemma_tokens_bits_push(tokens@, tk);
                assert(cs@.take(j + 1int) =~= cs@.take(pos as int) + token_bits(tk));
                if lexable(cs@) {
                    lemma_lex_step(u, tk);
                    assert(u.skip(k) =~= cs@.skip(j + 1int));
                }
            }
            tokens.push(tk);
            pos = j + 1;
        } else {
            proof {
                assert forall|tk: Token| !is_prefix(#[trigger] token_bits(tk), u) by {
                    if is_prefix(token_bits(tk), u) {
                        assert(u.take(token_bits(tk).len() as int)[0] == u[0]);
                    }
                }
                lemma_lex_fail(u);
            }
            return None;
        }
    }
    proof {
        assert(cs@.take(n as int) =~= cs@);
    }
    Some(tokens)
}

// ---------------------------------------------------------------------------
// Parsing
// ---------------------------------------------------------------------------

/// The tokens of a term, in pre-order.
pub open spec fn term_tokens(t: Term) -> Seq<Token>
    decreases t,
{
    match t {
        Term::Var { debruijn } => seq![Token::Var { debruijn }],
        Term::Abs { body } => seq![Token::Abs] + term_tokens(*body),
        Term::App { func, arg } => seq![Token::App] + term_tokens(*func) + term_tokens(*arg),
    }
}

/// The tokens of the terms of a parse stack, from its top (last element)
/// down.
pub open spec fn stack_tokens(s: Seq<Term>) -> Seq<Token>
    decreases s.len(),
{
    if s.len() == 0 {
        Seq::empty()
    } else {
        term_tokens(s.last()) + stack_tokens(s.drop_last())
    }
}

/// How many terms a token sequence stands for: a variable adds one, an
/// application takes two and gives one.
spec fn weight(ts: Seq<Token>) -> int
    decreases ts.len(),
{
    if ts.len() == 0 {
        0
    } else {
        (match ts[0] {
            Token::Var { .. } => 1int,
            Token::Abs => 0int,
            Token::App => -1int,
        }) + weight(ts.drop_first())
    }
}

proof fn lemma_weight_concat(a: Seq<Token>, b: Seq<Token>)
    ensures
        weight(a + b) == weight(a) + weight(b),
    decreases a.len(),
{
    if a.len() == 0 {
        assert(a + b =~= b);
    } else {
        assert((a + b).drop_first() =~= a.drop_first() + b);
        lemma_weight_concat(a.drop_first(), b);
    }
}

proof fn lemma_weight_skip(ts: Seq<Token>, i: int)
    requires
        0 <= i < ts.len(),
    ensures
        weight(ts.skip(i)) == (match ts[i] {
            Token::Var { .. } => 1int,
            Token::Abs => 0int,
            Token::App => -1int,
        }) + weight(ts.skip(i + 1)),
{
    assert(ts.skip(i).drop_first() =~= ts.skip(i + 1));
}

/// The tokens of a term stand for one term, and every nonempty suffix of
/// them for at least one.
proof fn lemma_term_weight(t: Term)
    ensures
        weight(term_tokens(t)) == 1,
        forall|k: int|
            0 <= k < term_tokens(t).len() ==> #[trigger] weight(term_tokens(t).skip(k)) >= 1,
    decreases t,
{
    let tt = term_tokens(t);
    match t {
        Term::Var { debruijn } => {
            assert(tt.drop_first() =~= Seq::<Token>::empty());
            assert(weight(Seq::<Token>::empty()) == 0);
            assert(tt[0] == Token::Var { debruijn });
            assert(tt.skip(0) =~= tt);
        },
        Term::Abs { .. } => {
            let b = term_tokens(body_of(t));
            lemma_term_weight(body_of(t));
            lemma_weight_concat(seq![Token::Abs], b);
            assert(seq![Token::Abs].drop_first() =~= Seq::<Token>::empty());
            assert(seq![Token::Abs][0] == Token::Abs);
            assert(weight(Seq::<Token>::empty()) == 0);
            assert(weight(seq![Token::Abs]) == 0);
            assert forall|k: int| 0 <= k < tt.len() implies #[trigger] weight(tt.skip(k)) >= 1 by {
                if k == 0 {
                    assert(tt.skip(0) =~= tt);
                } else {
                    assert(tt.skip(k) =~= b.skip(k - 1));
                }
            }
        },
        Term::App { .. } => {
            let f = term_tokens(func_of(t));
            let a = term_tokens(arg_of(t));
            lemma_term_weight(func_of(t));
            lemma_term_weight(arg_of(t));
            lemma_weight_concat(seq![Token::App], f);
            lemma_weight_concat(seq![Token::App] + f, a);
            assert(seq![Token::App].drop_first() =~= Seq::<Token>::empty());
            assert(seq![Token::App][0] == Token::App);
            assert(weight(Seq::<Token>::empty()) == 0);
            assert(weight(seq![Token::App]) == -1);
            assert forall|k: int| 0 <= k < tt.len() implies #[trigger] weight(tt.skip(k)) >= 1 by {
                if k == 0 {
                    assert(tt.skip(0) =~= tt);
                } else if k <= f.len() {
                    assert(tt.skip(k) =~= f.skip(k - 1) + a);
                    lemma_weight_concat(f.skip(k - 1), a);
                    if k - 1 == f.len() {
                        assert(f.skip(k - 1) =~= Seq::<Token>::empty());
                    }
                } else {
                    assert(tt.skip(k) =~= a.skip(k - 1 - f.len()));
                }
            }
        },
    }
}

proof fn lemma_stack_weight(s: Seq<Term>)
    ensures
        weight(stack_tokens(s)) == s.len(),
    decreases s.len(),
{
    if s.len() > 0 {
        lemma_stack_weight(s.drop_last());
        lemma_term_weight(s.last());
        lemma_weight_concat(term_tokens(s.last()), stack_tokens(s.drop_last()));
    }
}

/// Tokens in pre-order determine the term: a term's tokens followed by more
/// tokens split in one way only.
proof fn lemma_term_tokens_unique(t1: Term, t2: Term, x: Seq<Token>, y: Seq<Token>)
    requires
        term_tokens(t1) + x == term_tokens(t2) + y,
    ensures
        t1 == t2,
        x == y,
    decreases t1,
{
    let a = term_tokens(t1) + x;
    let b = term_tokens(t2) + y;
    assert(a[0] == b[0]);
    match t1 {
        Term::Var { debruijn } => {
            assert(a.drop_first() =~= x);
            assert(a[0] == Token::Var { debruijn });
            if t2 is Var {
                assert(b.drop_first() =~= y);
            } else {
                assert(b[0] == term_tokens(t2)[0]);
            }
        },
        Term::Abs { .. } => {
            if t2 is Abs {
                assert(a.drop_first() =~= term_tokens(body_of(t1)) + x);
                assert(b.drop_first() =~= term_tokens(body_of(t2)) + y);
                lemma_term_tokens_unique(body_of(t1), body_of(t2), x, y);
            }
        },
        Term::App { .. } => {
            if t2 is App {
                let (f1, a1, f2, a2) = (func_of(t1), arg_of(t1), func_of(t2), arg_of(t2));
                assert(a.drop_first() =~= term_tokens(f1) + (term_tokens(a1) + x));
                assert(b.drop_first() =~= term_tokens(f2) + (term_tokens(a2) + y));
                lemma_term_tokens_unique(f1, f2, term_tokens(a1) + x, term_tokens(a2) + y);
                lemma_term_tokens_unique(a1, a2, x, y);
            }
        },
    }
}

proof fn lemma_abs_depth_tokens(t: Term)
    ensures
        abs_depth(t) <= term_tokens(t).len(),
    decreases t,
{
    match t {
        Term::Var { .. } => {},
        Term::Abs { .. } => lemma_abs_depth_tokens(body_of(t)),
        Term::App { .. } => {
            lemma_abs_depth_tokens(func_of(t));
            lemma_abs_depth_tokens(arg_of(t));
        },
    }
}

/// Parses a token sequence into the term whose tokens (in pre-order) it
/// is; `None` where there is no such term. The tokens are read from the end
/// with an explicit stack, so that large terms do not exhaust the call
/// stack.
fn try_parse(tokens: &[Token]) -> (res: Option<Term>)
    ensures
        match res {
            Some(t) => term_tokens(t) == tokens@ && abs_depth(t) <= tokens@.len(),
            None => !exists|t: Term| #[trigger] term_tokens(t) == tokens@,
        },
{
    let mut stack: Vec<Term> = Vec::new();
    let mut i: usize = tokens.len();
    let ghost parsable = exists|t: Term| #[trigger] term_tokens(t) == tokens@;
    proof {
        assert(tokens@.skip(i as int) =~= Seq::<Token>::empty());
        if parsable {
            let t = choose|t: Term| #[trigger] term_tokens(t) == tokens@;
            lemma_term_weight(t);
        }
    }
    while i > 0
        invariant
            i <= tokens@.len(),
            stack_tokens(stack@) == tokens@.skip(i as int),
            parsable == exists|t: Term| #[trigger] term_tokens(t) == tokens@,
            parsable ==> weight(tokens@) == 1 && forall|k: int|
                0 <= k < tokens@.len() ==> #[trigger] weight(tokens@.skip(k)) >= 1,
        decreases i,
    {
        let ghost old_stack = stack@;
        i = i - 1;
        proof {
            lemma_stack_weight(stack@);
            lemma_weight_skip(tokens@, i as int);
        }
        match &tokens[i] {
            Token::Var { debruijn } => {
                let v = Term::Var { debruijn: *debruijn };
                stack.push(v);
                proof {
                    assert(stack@.drop_last() =~= old_stack);
                    assert(term_tokens(v) =~= seq![tokens@[i as int]]);
                    assert(tokens@.skip(i as int) =~= seq![tokens@[i as int]] + tokens@.skip(i + 1));
                }
            },
            Token::Abs => {
                if stack.len() < 1 {
                    return None;
                }
                let body = stack.pop().unwrap();
                let t = Term::Abs { body: Rc::new(body) };
                proof {
                    assert(stack@ =~= old_stack.drop_last());
                }
                stack.push(t);
                proof {
                    assert(stack@.drop_last() =~= old_stack.drop_last());
                    assert(tokens@.skip(i as int) =~= seq![Token::Abs] + tokens@.skip(i + 1));
                    assert(stack_tokens(stack@) =~= tokens@.skip(i as int));
                }
            },
            Token::App => {
                if stack.len() < 2 {
                    return None;
                }
                let func = stack.pop().unwrap();
                let arg = stack.pop().unwrap();
                let t = Term::App { func: Rc::new(func), arg: Rc::new(arg) };
                proof {
                    assert(stack@ =~= old_stack.drop_last().drop_last());
                    assert(old_stack.last() == func);
                    assert(old_stack.drop_last().last() == arg);
                    assert(stack_tokens(old_stack) == term_tokens(func) + stack_tokens(old_stack.drop_last()));
                    assert(stack_tokens(old_stack.drop_last()) == term_tokens(arg) + stack_tokens(stack@));
                }
                stack.push(t);
                proof {
                    assert(stack@.drop_last() =~= old_stack.drop_last().drop_last());
                    assert(tokens@.skip(i as int) =~= seq![Token::App] + tokens@.skip(i + 1));
                    assert(stack_tokens(stack@) =~= tokens@.skip(i as int));
                }
            },
        }
    }
    proof {
        lemma_stack_weight(stack@);
        assert(tokens@.skip(0) =~= tokens@);
    }
    if stack.len() != 1 {
        return None;
    }
    let ghost last = stack@;
    let term = stack.pop().unwrap();
    proof {
        assert(last.drop_last() =~= Seq::<Term>::empty());
        assert(stack_tokens(Seq::<Term>::empty()) =~= Seq::<Token>::empty());
        assert(stack_tokens(last) == term_tokens(term) + stack_tokens(last.drop_last()));
        assert(term_tokens(term) + Seq::<Token>::empty() =~= tokens@);
        lemma_abs_depth_tokens(term);
    }
    Some(term)
}

/// The entries of a traversal stack: a subterm and the number of
/// abstractions around it.
spec fn entries_scoped(s: Seq<(usize, &Term)>) -> bool {
    forall|k: int| 0 <= k < s.len() ==> scoped(*(#[trigger] s[k]).1, s[k].0 as nat)
}

proof fn lemma_entries_push(s: Seq<(usize, &Term)>, e: (usize, &Term))
    ensures
        entries_scoped(s.push(e)) == (entries_scoped(s) && scoped(*e.1, e.0 as nat)),
{
    let t = s.push(e);
    if entries_scoped(s) && scoped(*e.1, e.0 as nat) {
        assert forall|k: int| 0 <= k < t.len() implies scoped(*(#[trigger] t[k]).1, t[k].0 as nat) by {
            if k < s.len() {
                assert(t[k] == s[k]);
            }
        }
    }
    if entries_scoped(t) {
        assert(t[s.len() as int] == e);
        assert forall|k: int| 0 <= k < s.len() implies scoped(*(#[trigger] s[k]).1, s[k].0 as nat) by {
            assert(t[k] == s[k]);
        }
    }
}

spec fn entries_size(s: Seq<(usize, &Term)>) -> nat
    decreases s.len(),
{
    if s.len() == 0 {
        0
    } else {
        size(*s.last().1) + entries_size(s.drop_last())
    }
}

/// Tells whether the term is closed: every variable refers to an
/// abstraction of the term. The traversal is iterative.
fn is_closed(term: &Term) -> (ok: bool)
    requires
        abs_depth(*term) <= usize::MAX,
    ensures
        ok == closed(*term),
{
    let mut stack: Vec<(usize, &Term)> = Vec::new();
    proof {
        lemma_entries_push(stack@, (0usize, term));
        assert(entries_scoped(stack@));
    }
    stack.push((0, term));
    while stack.len() > 0
        invariant
            closed(*term) == entries_scoped(stack@),
            forall|k: int|
                0 <= k < stack@.len() ==> (#[trigger] stack@[k]).0 + abs_depth(*stack@[k].1)
                    <= abs_depth(*term),
            abs_depth(*term) <= usize::MAX,
        decreases entries_size(stack@),
    {
        let ghost old = stack@;
        let (depth, node) = stack.pop().unwrap();
        proof {
            assert(stack@ =~= old.drop_last());
            assert(old.last() == (depth, node));
            assert(old =~= stack@.push((depth, node)));
            lemma_entries_push(stack@, (depth, node));
        }
        match node {
            Term::Var { debruijn } => {
                if depth <= *debruijn {
                    return false;
                }
            },
            Term::Abs { body } => {
                let b: &Term = body;
                proof {
                    lemma_entries_push(stack@, ((depth + 1) as usize, b));
                }
                stack.push((depth + 1, b));
                proof {
                    assert(stack@.drop_last() =~= old.drop_last());
                }
            },
            Term::App { func, arg } => {
                let f: &Term = func;
                let a: &Term = arg;
                proof {
                    lemma_entries_push(stack@, (depth, a));
                    lemma_entries_push(stack@.push((depth, a)), (depth, f));
                }
                stack.push((depth, a));
                stack.push((depth, f));
                proof {
                    assert(stack@.drop_last().drop_last() =~= old.drop_last());
                    assert(stack@.drop_last().last() == (depth, a));
                    assert(entries_size(stack@.drop_last()) == size(*a) + entries_size(old.drop_last()));
                }
            },
        }
    }
    true
}

/// Makes sure that the term is closed: walks the term and meets no variable
/// without an abstraction that binds it. The traversal is iterative.
fn verify_closed(term: &Term)
    requires
        closed(*term),
        abs_depth(*term) <= usize::MAX,
{
    let mut stack: Vec<(usize, &Term)> = Vec::new();
    proof {
        lemma_entries_push(stack@, (0usize, term));
    }
    stack.push((0, term));
    while stack.len() > 0
        invariant
            entries_scoped(stack@),
            forall|k: int|
                0 <= k < stack@.len() ==> (#[trigger] stack@[k]).0 + abs_depth(*stack@[k].1)
                    <= abs_depth(*term),
            abs_depth(*term) <= usize::MAX,
        decreases entries_size(stack@),
    {
        let ghost old = stack@;
        let (depth, node) = stack.pop().unwrap();
        proof {
            assert(stack@ =~= old.drop_last());
            assert(old.last() == (depth, node));
            assert(old =~= stack@.push((depth, node)));
            lemma_entries_push(stack@, (depth, node));
        }
        match node {
            Term::Var { debruijn } => {
                assert(*debruijn < depth);
            },
            Term::Abs { body } => {
                let b: &Term = body;
                proof {
                    lemma_entries_push(stack@, ((depth + 1) as usize, b));
                }
                stack.push((depth + 1, b));
                proof {
                    assert(stack@.drop_last() =~= old.drop_last());
                }
            },
            Term::App { func, arg } => {
                let f: &Term = func;
                let a: &Term = arg;
                proof {
                    lemma_entries_push(stack@, (depth, a));
                    lemma_entries_push(stack@.push((depth, a)), (depth, f));
                }
                stack.push((depth, a));
                stack.push((depth, f));
                proof {
                    assert(stack@.drop_last().drop_last() =~= old.drop_last());
                    assert(stack@.drop_last().last() == (depth, a));
                    assert(entries_size(stack@.drop_last()) == size(*a) + entries_size(old.drop_last()));
                }
            },
        }
    }
}

/// Splits a string in BLC notation into tokens.
pub fn lex(blc: &str) -> (tokens: Vec<Token>)
    requires
        lexable(blc@),
    ensures
        tokens_bits(tokens@) == blc@,
{
    match try_lex(blc) {
        Some(tokens) => tokens,
        None => {
            proof {
                assert(false);
            }
            Vec::new()
        },
    }
}

/// Parses the tokens of a closed term (in pre-order) into that term, and
/// makes sure that it is closed.
fn parse(tokens: &[Token]) -> (term: Term)
    requires
        exists|t: Term| closed(t) && #[trigger] term_tokens(t) == tokens@,
    ensures
        term_tokens(term) == tokens@,
        closed(term),
{
    assert(tokens@.len() == tokens.len());
    match try_parse(tokens) {
        Some(term) => {
            proof {
                let t = choose|t: Term| closed(t) && #[trigger] term_tokens(t) == tokens@;
                assert(term_tokens(t) + Seq::<Token>::empty() =~= term_tokens(term) + Seq::<Token>::empty());
                lemma_term_tokens_unique(t, term, Seq::empty(), Seq::empty());
            }
            verify_closed(&term);
            term
        },
        None => {
            proof {
                assert(false);
            }
            Term::Var { debruijn: 0 }
        },
    }
}

// ---------------------------------------------------------------------------
// Decoding
// ---------------------------------------------------------------------------

proof fn lemma_tokens_bits_concat(a: Seq<Token>, b: Seq<Token>)
    ensures
        tokens_bits(a + b) == tokens_bits(a) + tokens_bits(b),
    decreases a.len(),
{
    if a.len() == 0 {
        assert(a + b =~= b);
        assert(tokens_bits(a) =~= Seq::<char>::empty());
        assert(tokens_bits(a + b) =~= tokens_bits(a) + tokens_bits(b));
    } else {
        assert((a + b).drop_first() =~= a.drop_first() + b);
        assert((a + b)[0] == a[0]);
        lemma_tokens_bits_concat(a.drop_first(), b);
        assert(tokens_bits(a + b) =~= tokens_bits(a) + tokens_bits(b));
    }
}

proof fn lemma_term_bits_tokens(t: Term)
    ensures
        term_bits(t) == tokens_bits(term_tokens(t)),
    decreases t,
{
    let one = term_tokens(t).take(1);
    match t {
        Term::Var { debruijn } => {
            assert(term_tokens(t).drop_first() =~= Seq::<Token>::empty());
            assert(tokens_bits(Seq::<Token>::empty()) =~= Seq::<char>::empty());
            assert(term_bits(t) =~= tokens_bits(term_tokens(t)));
        },
        Term::Abs { .. } => {
            lemma_term_bits_tokens(body_of(t));
            lemma_tokens_bits_concat(seq![Token::Abs], term_tokens(body_of(t)));
            assert(seq![Token::Abs].drop_first() =~= Seq::<Token>::empty());
            assert(seq![Token::Abs][0] == Token::Abs);
            assert(tokens_bits(Seq::<Token>::empty()) =~= Seq::<char>::empty());
            assert(tokens_bits(seq![Token::Abs]) =~= seq!['0', '0']);
        },
        Term::App { .. } => {
            let (f, a) = (term_tokens(func_of(t)), term_tokens(arg_of(t)));
            lemma_term_bits_tokens(func_of(t));
            lemma_term_bits_tokens(arg_of(t));
            lemma_tokens_bits_concat(seq![Token::App], f);
            lemma_tokens_bits_concat(seq![Token::App] + f, a);
            assert(seq![Token::App].drop_first() =~= Seq::<Token>::empty());
            assert(seq![Token::App][0] == Token::App);
            assert(tokens_bits(Seq::<Token>::empty()) =~= Seq::<char>::empty());
            assert(tokens_bits(seq![Token::App]) =~= seq!['0', '1']);
            assert(term_bits(t) =~= tokens_bits(term_tokens(t)));
        },
    }
}

/// A character sequence splits into tokens in one way only.
proof fn lemma_tokens_bits_injective(a: Seq<Token>, b: Seq<Token>)
    requires
        tokens_bits(a) == tokens_bits(b),
    ensures
        a == b,
    decreases a.len(),
{
    let u = tokens_bits(a);
    if a.len() == 0 {
        if b.len() > 0 {
            assert(token_bits(b[0]).len() > 0);
            assert(tokens_bits(b) == token_bits(b[0]) + tokens_bits(b.drop_first()));
            assert(u.len() == 0);
        }
        assert(a =~= b);
    } else {
        assert(token_bits(a[0]).len() > 0);
        lemma_split_head(a, u);
        lemma_split_head(b, u);
        lemma_token_unique(a[0], b[0], u);
        lemma_tokens_bits_injective(a.drop_first(), b.drop_first());
        assert(a =~= seq![a[0]] + a.drop_first());
        assert(b =~= seq![b[0]] + b.drop_first());
    }
}

/// Different terms have different BLC notations.
pub proof fn lemma_term_bits_injective(t1: Term, t2: Term)
    requires
        term_bits(t1) == term_bits(t2),
    ensures
        t1 == t2,
{
    lemma_term_bits_tokens(t1);
    lemma_term_bits_tokens(t2);
    lemma_tokens_bits_injective(term_tokens(t1), term_tokens(t2));
    assert(term_tokens(t1) + Seq::<Token>::empty() =~= term_tokens(t2) + Seq::<Token>::empty());
    lemma_term_tokens_unique(t1, t2, Seq::empty(), Seq::empty());
}

/// Converts a string in BLC notation into the closed term that it denotes;
/// `None` where the string is not the notation of a closed term.
pub fn try_decode(blc: &str) -> (res: Option<Term>)
    ensures
        match res {
            Some(t) => term_bits(t) == blc@ && closed(t),
            None => !is_blc(blc@),
        },
{
    match try_lex(blc) {
        None => {
            proof {
                if is_blc(blc@) {
                    let t = choose|t: Term| closed(t) && #[trigger] term_bits(t) == blc@;
                    lemma_term_bits_tokens(t);
                    assert(tokens_bits(term_tokens(t)) == blc@);
                }
            }
            None
        },
        Some(tokens) => {
            match try_parse(tokens.as_slice()) {
                Some(t) => {
                    proof {
                        lemma_term_bits_tokens(t);
                    }
                    assert(tokens@.len() == tokens.len());
                    if is_closed(&t) {
                        Some(t)
                    } else {
                        proof {
                            if is_blc(blc@) {
                                let u = choose|u: Term| closed(u) && #[trigger] term_bits(u) == blc@;
                                lemma_term_bits_injective(u, t);
                            }
                        }
                        None
                    }
                },
                None => {
                    proof {
                        if is_blc(blc@) {
                            let t = choose|t: Term| closed(t) && #[trigger] term_bits(t) == blc@;
                            lemma_term_bits_tokens(t);
                            lemma_tokens_bits_injective(term_tokens(t), tokens@);
                        }
                    }
                    None
                },
            }
        },
    }
}

/// Converts a string in BLC notation into the lambda term that it denotes.
pub fn decode(blc: &str) -> (t: Term)
    requires
        is_blc(blc@),
    ensures
        term_bits(t) == blc@,
        closed(t),
{
    proof {
        let u = choose|u: Term| closed(u) && #[trigger] term_bits(u) == blc@;
        lemma_term_bits_tokens(u);
    }
    let tokens = lex(blc);
    proof {
        let u = choose|u: Term| closed(u) && #[trigger] term_bits(u) == blc@;
        lemma_tokens_bits_injective(term_tokens(u), tokens@);
    }
    let t = parse(tokens.as_slice());
    proof {
        lemma_term_bits_tokens(t);
    }
    t
}

// ---------------------------------------------------------------------------
// Encoding
// ---------------------------------------------------------------------------

/// The characters that one node contributes, without its children.
spec fn node_bits(t: Term) -> Seq<char> {
    match t {
        Term::Var { debruijn } => ones(debruijn as nat + 1).push('0'),
        Term::Abs { .. } => seq!['0', '0'],
        Term::App { .. } => seq!['0', '1'],
    }
}

/// The characters of a sequence of nodes.
spec fn nodes_bits(s: Seq<Term>) -> Seq<char>
    decreases s.len(),
{
    if s.len() == 0 {
        Seq::empty()
    } else {
        node_bits(s[0]) + nodes_bits(s.drop_first())
    }
}

proof fn lemma_nodes_bits_concat(a: Seq<Term>, b: Seq<Term>)
    ensures
        nodes_bits(a + b) == nodes_bits(a) + nodes_bits(b),
    decreases a.len(),
{
    if a.len() == 0 {
        assert(a + b =~= b);
        assert(nodes_bits(a + b) =~= nodes_bits(a) + nodes_bits(b));
    } else {
        assert((a + b).drop_first() =~= a.drop_first() + b);
        assert((a + b)[0] == a[0]);
        lemma_nodes_bits_concat(a.drop_first(), b);
        assert(nodes_bits(a + b) =~= nodes_bits(a) + nodes_bits(b));
    }
}

proof fn lemma_nodes_bits_one(t: Term)
    ensures
        nodes_bits(seq![t]) == node_bits(t),
{
    assert(seq![t].drop_first() =~= Seq::<Term>::empty());
    assert(seq![t][0] == t);
    assert(nodes_bits(Seq::<Term>::empty()) =~= Seq::<char>::empty());
    assert(nodes_bits(seq![t]) =~= node_bits(t));
}

proof fn lemma_preorder_bits(t: Term)
    ensures
        nodes_bits(preorder(t)) == term_bits(t),
    decreases t,
{
    lemma_nodes_bits_one(t);
    match t {
        Term::Var { .. } => {},
        Term::Abs { .. } => {
            lemma_preorder_bits(body_of(t));
            lemma_nodes_bits_concat(seq![t], preorder(body_of(t)));
        },
        Term::App { .. } => {
            lemma_preorder_bits(func_of(t));
            lemma_preorder_bits(arg_of(t));
            lemma_nodes_bits_concat(seq![t], preorder(func_of(t)));
            lemma_nodes_bits_concat(seq![t] + preorder(func_of(t)), preorder(arg_of(t)));
        },
    }
}

/// Encodes a lambda term in BLC notation. The term is traversed
/// iteratively, in pre-order, so that large terms do not exhaust the call
/// stack.
pub fn encode(term: &Term) -> (res: String)
    ensures
        res@ == term_bits(*term),
{
    let nodes = term.preorder_nodes();
    let ghost ns = derefs(nodes@);
    let mut res = String::new();
    proof {
        reveal_strlit("0");
        reveal_strlit("1");
        reveal_strlit("00");
        reveal_strlit("01");
        assert(ns.take(0) =~= Seq::<Term>::empty());
        assert(res@ =~= nodes_bits(ns.take(0)));
    }
    let mut i: usize = 0;
    while i < nodes.len()
        invariant
            ns == derefs(nodes@),
            i <= nodes@.len(),
            res@ == nodes_bits(ns.take(i as int)),
            "0"@ == seq!['0'],
            "1"@ == seq!['1'],
            "00"@ == seq!['0', '0'],
            "01"@ == seq!['0', '1'],
        decreases nodes@.len() - i,
    {
        let node: &Term = nodes[i];
        assert(ns[i as int] == *node);
        let ghost before = res@;
        match node {
            Term::Var { debruijn } => {
                let mut k: usize = 0;
                while k < *debruijn
                    invariant
                        k <= *debruijn,
                        res@ == before + ones(k as nat),
                        "1"@ == seq!['1'],
                    decreases *debruijn - k,
                {
                    res.append("1");
                    proof {
                        assert(before + ones(k as nat + 1) =~= before + ones(k as nat) + seq!['1']);
                    }
                    k = k + 1;
                }
                res.append("1");
                res.append("0");
                proof {
                    assert(res@ =~= before + node_bits(*node));
                }
            },
            Term::Abs { .. } => {
                res.append("00");
            },
            Term::App { .. } => {
                res.append("01");
            },
        }
        proof {
            assert(ns.take(i + 1int) =~= ns.take(i as int) + seq![*node]);
            lemma_nodes_bits_concat(ns.take(i as int), seq![*node]);
            lemma_nodes_bits_one(*node);
        }
        i = i + 1;
    }
    proof {
        assert(ns.take(i as int) =~= ns);
        lemma_preorder_bits(*term);
    }
    res
}

/// Decoding the BLC notation of a closed term gives the term back: the
/// notation is accepted, and the only closed term with that notation is
/// the term itself.
pub proof fn lemma_blc_roundtrip(t: Term)
    requires
        closed(t),
    ensures
        is_blc(term_bits(t)),
        forall|u: Term| closed(u) && #[trigger] term_bits(u) == term_bits(t) ==> u == t,
{
    assert forall|u: Term| closed(u) && #[trigger] term_bits(u) == term_bits(t) implies u == t by {
        lemma_term_bits_injective(u, t);
    }
}


/// Whatever follows the characters of a token sequence that begin the
/// characters of another splits into the rest of that other sequence.
proof fn lemma_tokens_bits_prefix(a: Seq<Token>, b: Seq<Token>, x: Seq<char>) -> (r: Seq<Token>)
    requires
        tokens_bits(a) + x == tokens_bits(b),
    ensures
        b == a + r,
        tokens_bits(r) == x,
    decreases a.len(),
{
    if a.len() == 0 {
        assert(tokens_bits(a) =~= Seq::<char>::empty());
        assert(a + b =~= b);
        assert(x =~= tokens_bits(b));
        b
    } else {
        let u = tokens_bits(b);
        assert(token_bits(a[0]).len() > 0);
        let ua = tokens_bits(a) + x;
        assert(ua =~= token_bits(a[0]) + (tokens_bits(a.drop_first()) + x));
        assert(is_prefix(token_bits(a[0]), u)) by {
            assert(u.take(token_bits(a[0]).len() as int) =~= token_bits(a[0]));
        }
        lemma_split_head(b, u);
        lemma_token_unique(a[0], b[0], u);
        let k = token_bits(a[0]).len() as int;
        assert(u.skip(k) =~= tokens_bits(a.drop_first()) + x);
        let r = lemma_tokens_bits_prefix(a.drop_first(), b.drop_first(), x);
        assert(b =~= seq![b[0]] + b.drop_first());
        assert(a =~= seq![a[0]] + a.drop_first());
        assert(b =~= a + r);
        r
    }
}

/// The BLC notation is a prefix code: the notation of a term is never a
/// proper beginning of the notation of another, and equal notations belong
/// to equal terms.
pub proof fn lemma_term_bits_prefix_free(t1: Term, t2: Term, x: Seq<char>)
    requires
        term_bits(t1) + x == term_bits(t2),
    ensures
        x.len() == 0,
        t1 == t2,
{
    lemma_term_bits_tokens(t1);
    lemma_term_bits_tokens(t2);
    let r = lemma_tokens_bits_prefix(term_tokens(t1), term_tokens(t2), x);
    assert(term_tokens(t2) + Seq::<Token>::empty() =~= term_tokens(t2));
    lemma_term_tokens_unique(t1, t2, r, Seq::empty());
    assert(tokens_bits(Seq::<Token>::empty()) =~= Seq::<char>::empty());
}

/// Splitting the BLC notation of a term into tokens gives the term's tokens
/// in pre-order: the notation splits, and in no other way.
pub proof fn lemma_lex_encode(t: Term)
    ensures
        lexable(term_bits(t)),
        forall|ts: Seq<Token>| #[trigger] tokens_bits(ts) == term_bits(t) ==> ts == term_tokens(t),
{
    lemma_term_bits_tokens(t);
    assert forall|ts: Seq<Token>| #[trigger] tokens_bits(ts) == term_bits(t) implies ts == term_tokens(t) by {
        lemma_tokens_bits_injective(ts, term_tokens(t));
    }
}

/// The notation of a variable: the variable with De Bruijn index `n` is
/// written as `n + 1` ones followed by one zero, both as a term and as a
/// token; so `encode` of it has `n + 2` characters.
pub proof fn lemma_var_notation(n: usize)
    ensures
        term_bits(Term::Var { debruijn: n }).len() == n + 2,
        forall|i: int| 0 <= i <= n ==> #[trigger] term_bits(Term::Var { debruijn: n })[i] == '1',
        term_bits(Term::Var { debruijn: n })[n + 1] == '0',
        token_bits(Token::Var { debruijn: n }) == term_bits(Term::Var { debruijn: n }),
{
}

/// The notation of the other nodes: an abstraction is `00` followed by its
/// body, an application `01` followed by its function and its argument.
pub proof fn lemma_node_notation(t: Term)
    ensures
        t is Abs ==> term_bits(t) == seq!['0', '0'] + term_bits(*t->body),
        t is App ==> term_bits(t) == seq!['0', '1'] + term_bits(*t->func) + term_bits(*t->arg),
        token_bits(Token::Abs) == seq!['0', '0'],
        token_bits(Token::App) == seq!['0', '1'],
{
}

/// Lexing reads a run of `k >= 1` ones closed by a zero as the variable
/// with index `k - 1`, and as nothing else.
pub proof fn lemma_lex_var(k: nat, ts: Seq<Token>)
    requires
        1 <= k <= usize::MAX + 1,
        tokens_bits(ts) == Seq::new(k, |i: int| '1').push('0'),
    ensures
        ts == seq![Token::Var { debruijn: (k - 1) as usize }],
{
    let v = seq![Token::Var { debruijn: (k - 1) as usize }];
    assert(tokens_bits(v.drop_first()) == Seq::<char>::empty()) by {
        assert(v.drop_first() =~= Seq::<Token>::empty());
    }
    assert(tokens_bits(v) =~= Seq::new(k, |i: int| '1').push('0'));
    lemma_tokens_bits_injective(ts, v);
}

} // verus!
