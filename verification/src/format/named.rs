//! Textual notation of lambda terms with named variables, `(λa. a)` for an
//! abstraction and `(f a)` for an application, and the same notation with
//! De Bruijn indices, `(λ 0)`.
use std::rc::Rc;
use vstd::prelude::*;
use crate::term::{Term, closed, scoped, abs_depth, body_of, func_of, arg_of};
use crate::format::push_char;

verus! {

/// The letter with the given number: `a` for 0 up to `z` for 25.
pub open spec fn letter(j: nat) -> char {
    (97 + j) as char
}

/// The name that the printer gives to the variable bound at the given
/// level (the outermost abstraction is level 0): `a` to `z`, then `aa` to
/// `zz`, and so on.
pub open spec fn level_name(k: nat) -> Seq<char> {
    Seq::new(k / 26 + 1, |i: int| letter(k % 26))
}

fn push_letter(out: &mut String, j: usize)
    requires
        j < 26,
    ensures
        final(out)@ == old(out)@.push(letter(j as nat)),
{
    let c = (97u8 + j as u8) as char;
    assert(c == letter(j as nat));
    push_char(out, c);
}

/// The character of the abstraction sign.
pub open spec fn lambda_char() -> char {
    '\u{3bb}'
}

/// The named notation of a term whose free variables are bound by `depth`
/// enclosing abstractions; each abstraction binds the name of its level.
pub open spec fn named_text(t: Term, depth: nat) -> Seq<char>
    decreases t,
{
    match t {
        Term::Var { debruijn } => level_name((depth - 1 - debruijn) as nat),
        Term::Abs { body } => seq!['(', lambda_char()] + level_name(depth) + seq!['.', ' ']
            + named_text(*body, depth + 1) + seq![')'],
        Term::App { func, arg } => seq!['('] + named_text(*func, depth) + seq![' '] + named_text(
            *arg,
            depth,
        ) + seq![')'],
    }
}

/// The decimal digit with the given value.
pub open spec fn digit(d: nat) -> char {
    (48 + d) as char
}

/// The decimal notation of a number.
pub open spec fn decimal(n: nat) -> Seq<char>
    decreases n,
{
    if n < 10 {
        seq![digit(n)]
    } else {
        decimal(n / 10).push(digit(n % 10))
    }
}

/// The notation of a term with De Bruijn indices: `(λ body)`, `(f a)` and
/// the index of a variable in decimal.
pub open spec fn debruijn_text(t: Term) -> Seq<char>
    decreases t,
{
    match t {
        Term::Var { debruijn } => decimal(debruijn as nat),
        Term::Abs { body } => seq!['(', lambda_char(), ' '] + debruijn_text(*body) + seq![')'],
        Term::App { func, arg } => seq!['('] + debruijn_text(*func) + seq![' '] + debruijn_text(
            *arg,
        ) + seq![')'],
    }
}

fn push_name(out: &mut String, k: usize)
    ensures
        final(out)@ == old(out)@ + level_name(k as nat),
{
    let j = k % 26;
    let n = k / 26;
    let ghost start = out@;
    let mut i: usize = 0;
    while i <= n
        invariant
            i <= n + 1,
            j == k % 26,
            n == k / 26,
            start == old(out)@,
            out@ == start + Seq::new(i as nat, |x: int| letter(j as nat)),
        decreases n + 1 - i,
    {
        push_letter(out, j);
        proof {
            assert(start + Seq::new(i as nat + 1, |x: int| letter(j as nat)) =~= start + Seq::new(
                i as nat,
                |x: int| letter(j as nat),
            ) + seq![letter(j as nat)]);
        }
        if i == n {
            proof {
                assert(Seq::new(i as nat + 1, |x: int| letter(j as nat)) =~= level_name(k as nat));
            }
            return;
        }
        i = i + 1;
    }
}

fn push_decimal(out: &mut String, n: usize)
    ensures
        final(out)@ == old(out)@ + decimal(n as nat),
    decreases n,
{
    if n < 10 {
        push_char(out, (48u8 + n as u8) as char);
        proof {
            assert(old(out)@ + decimal(n as nat) =~= old(out)@.push(digit(n as nat)));
        }
    } else {
        push_decimal(out, n / 10);
        push_char(out, (48u8 + (n % 10) as u8) as char);
        proof {
            assert(old(out)@ + decimal(n as nat) =~= old(out)@ + decimal((n / 10) as nat) + seq![
                digit((n % 10) as nat),
            ]);
        }
    }
}

fn write_named(t: &Term, depth: usize, out: &mut String)
    requires
        scoped(*t, depth as nat),
        depth + abs_depth(*t) <= usize::MAX,
    ensures
        final(out)@ == old(out)@ + named_text(*t, depth as nat),
    decreases *t,
{
    match t {
        Term::Var { debruijn } => {
            push_name(out, depth - 1 - *debruijn);
        },
        Term::Abs { body } => {
            push_char(out, '(');
            push_char(out, '\u{3bb}');
            push_name(out, depth);
            push_char(out, '.');
            push_char(out, ' ');
            write_named(body, depth + 1, out);
            push_char(out, ')');
            proof {
                assert(final(out)@ =~= old(out)@ + named_text(*t, depth as nat));
            }
        },
        Term::App { func, arg } => {
            push_char(out, '(');
            write_named(func, depth, out);
            push_char(out, ' ');
            write_named(arg, depth, out);
            push_char(out, ')');
            proof {
                assert(final(out)@ =~= old(out)@ + named_text(*t, depth as nat));
            }
        },
    }
}

fn write_debruijn(t: &Term, out: &mut String)
    ensures
        final(out)@ == old(out)@ + debruijn_text(*t),
    decreases *t,
{
    match t {
        Term::Var { debruijn } => {
            push_decimal(out, *debruijn);
        },
        Term::Abs { body } => {
            push_char(out, '(');
            push_char(out, '\u{3bb}');
            push_char(out, ' ');
            write_debruijn(body, out);
            push_char(out, ')');
            proof {
                assert(final(out)@ =~= old(out)@ + debruijn_text(*t));
            }
        },
        Term::App { func, arg } => {
            push_char(out, '(');
            write_debruijn(func, out);
            push_char(out, ' ');
            write_debruijn(arg, out);
            push_char(out, ')');
            proof {
                assert(final(out)@ =~= old(out)@ + debruijn_text(*t));
            }
        },
    }
}

/// Prints a closed term with named variables: the abstraction at level `k`
/// binds the `k`-th name of `a`, ..., `z`, `aa`, ..., `zz`, `aaa`, ...
pub fn encode(term: &Term) -> (res: String)
    requires
        closed(*term),
        abs_depth(*term) <= usize::MAX,
    ensures
        res@ == named_text(*term, 0),
{
    let mut res = String::new();
    write_named(term, 0, &mut res);
    proof {
        assert(res@ =~= named_text(*term, 0));
    }
    res
}

/// Prints a term with De Bruijn indices.
pub fn encode_to_debruijn(term: &Term) -> (res: String)
    ensures
        res@ == debruijn_text(*term),
{
    let mut res = String::new();
    write_debruijn(term, &mut res);
    proof {
        assert(res@ =~= debruijn_text(*term));
    }
    res
}

// ---------------------------------------------------------------------------
// Reading the named notation
// ---------------------------------------------------------------------------

/// A term with named variables, as it is written.
pub enum Named {
    Var { name: Seq<char> },
    Lam { name: Seq<char>, body: Box<Named> },
    App { func: Box<Named>, arg: Box<Named> },
}

/// Characters that may occur in a name.
pub open spec fn name_char(c: char) -> bool {
    ('a' <= c && c <= 'z') || ('A' <= c && c <= 'Z') || ('0' <= c && c <= '9') || c == '_'
}

pub open spec fn valid_name(x: Seq<char>) -> bool {
    x.len() > 0 && forall|i: int| 0 <= i < x.len() ==> name_char(#[trigger] x[i])
}

/// All names of a named term are valid.
pub open spec fn wf_named(n: Named) -> bool
    decreases n,
{
    match n {
        Named::Var { name } => valid_name(name),
        Named::Lam { name, body } => valid_name(name) && wf_named(*body),
        Named::App { func, arg } => wf_named(*func) && wf_named(*arg),
    }
}

/// How a named term is written.
pub open spec fn text(n: Named) -> Seq<char>
    decreases n,
{
    match n {
        Named::Var { name } => name,
        Named::Lam { name, body } => seq!['(', lambda_char()] + name + seq!['.', ' '] + text(*body)
            + seq![')'],
        Named::App { func, arg } => seq!['('] + text(*func) + seq![' '] + text(*arg) + seq![')'],
    }
}

/// The De Bruijn index of name `x` in a scope whose last entry is the
/// innermost binder: the innermost binder of that name wins.
pub open spec fn lookup(scope: Seq<Seq<char>>, x: Seq<char>) -> Option<nat>
    decreases scope.len(),
{
    if scope.len() == 0 {
        None
    } else if scope.last() == x {
        Some(0)
    } else {
        match lookup(scope.drop_last(), x) {
            Some(k) => Some(k + 1),
            None => None,
        }
    }
}

/// The nameless term that a named term stands for in a scope; `None` where
/// a name is not bound.
pub open spec fn resolve(n: Named, scope: Seq<Seq<char>>) -> Option<Term>
    decreases n,
{
    match n {
        Named::Var { name } => match lookup(scope, name) {
            Some(k) => if k <= usize::MAX {
                Some(Term::Var { debruijn: k as usize })
            } else {
                None
            },
            None => None,
        },
        Named::Lam { name, body } => match resolve(*body, scope.push(name)) {
            Some(b) => Some(Term::Abs { body: Rc::new(b) }),
            None => None,
        },
        Named::App { func, arg } => match (resolve(*func, scope), resolve(*arg, scope)) {
            (Some(f), Some(a)) => Some(Term::App { func: Rc::new(f), arg: Rc::new(a) }),
            _ => None,
        },
    }
}

/// `s` is the named notation of a closed term.
pub open spec fn is_named_text(s: Seq<char>) -> bool {
    exists|n: Named| wf_named(n) && #[trigger] text(n) == s && resolve(n, Seq::empty()) is Some
}

/// What follows a name cannot continue it.
pub open spec fn delimited(r: Seq<char>) -> bool {
    r.len() == 0 || !name_char(r[0])
}

proof fn lemma_text_head(n: Named)
    requires
        wf_named(n),
    ensures
        text(n).len() >= 1,
        n is Var ==> name_char(text(n)[0]),
        !(n is Var) ==> text(n)[0] == '(' && text(n).len() >= 3,
        n is Lam ==> text(n)[1] == lambda_char(),
        n is App ==> (text(n)[1] == '(' || name_char(text(n)[1])),
    decreases n,
{
    match n {
        Named::Var { name } => {
            assert(name_char(name[0]));
        },
        Named::Lam { .. } => {},
        Named::App { func, arg } => {
            lemma_text_head(*func);
            lemma_text_head(*arg);
            assert(text(n)[1] == text(*func)[0]);
        },
    }
}

/// A name followed by something that cannot continue it is read in one
/// way only.
proof fn lemma_name_unique(x: Seq<char>, r1: Seq<char>, y: Seq<char>, r2: Seq<char>)
    requires
        valid_name(x),
        valid_name(y),
        x + r1 == y + r2,
        delimited(r1),
        delimited(r2),
    ensures
        x == y,
        r1 == r2,
{
    let u = x + r1;
    if x.len() < y.len() {
        assert(u[x.len() as int] == y[x.len() as int]);
        assert(name_char(y[x.len() as int]));
        assert(r1.len() > 0);
        assert(u[x.len() as int] == r1[0]);
    } else if y.len() < x.len() {
        assert(u[y.len() as int] == x[y.len() as int]);
        assert(name_char(x[y.len() as int]));
        assert(r2.len() > 0);
        assert((y + r2)[y.len() as int] == r2[0]);
    }
    assert(x =~= u.take(x.len() as int));
    assert(y =~= (y + r2).take(y.len() as int));
    assert(r1 =~= u.skip(x.len() as int));
    assert(r2 =~= (y + r2).skip(y.len() as int));
}

/// The named notation is read in one way only.
pub proof fn lemma_text_unique(n1: Named, n2: Named, r1: Seq<char>, r2: Seq<char>)
    requires
        wf_named(n1),
        wf_named(n2),
        text(n1) + r1 == text(n2) + r2,
        n1 is Var ==> delimited(r1),
        n2 is Var ==> delimited(r2),
    ensures
        n1 == n2,
        r1 == r2,
    decreases n1,
{
    let u = text(n1) + r1;
    lemma_text_head(n1);
    lemma_text_head(n2);
    assert(u[0] == text(n1)[0]);
    assert(u[0] == text(n2)[0]);
    match n1 {
        Named::Var { name: x } => {
            if let Named::Var { name: y } = n2 {
                lemma_name_unique(x, r1, y, r2);
            }
        },
        Named::Lam { name: x, body: b } => {
            assert(u[1] == text(n1)[1]);
            assert(u[1] == text(n2)[1]);
            if let Named::Lam { name: y, body: c } = n2 {
                let rx = seq!['.', ' '] + text(*b) + seq![')'] + r1;
                let ry = seq!['.', ' '] + text(*c) + seq![')'] + r2;
                assert(u.skip(2) =~= x + rx);
                assert((text(n2) + r2).skip(2) =~= y + ry);
                assert(!name_char('.'));
                lemma_name_unique(x, rx, y, ry);
                assert(rx.skip(2) =~= text(*b) + (seq![')'] + r1));
                assert(ry.skip(2) =~= text(*c) + (seq![')'] + r2));
                lemma_text_unique(*b, *c, seq![')'] + r1, seq![')'] + r2);
                assert(r1 =~= (seq![')'] + r1).skip(1));
                assert(r2 =~= (seq![')'] + r2).skip(1));
            }
        },
        Named::App { func: f, arg: a } => {
            assert(u[1] == text(n1)[1]);
            assert(u[1] == text(n2)[1]);
            if let Named::App { func: g, arg: h } = n2 {
                let rf = seq![' '] + text(*a) + seq![')'] + r1;
                let rg = seq![' '] + text(*h) + seq![')'] + r2;
                assert(u.skip(1) =~= text(*f) + rf);
                assert((text(n2) + r2).skip(1) =~= text(*g) + rg);
                lemma_text_unique(*f, *g, rf, rg);
                assert(rf.skip(1) =~= text(*a) + (seq![')'] + r1));
                assert(rg.skip(1) =~= text(*h) + (seq![')'] + r2));
                lemma_text_unique(*a, *h, seq![')'] + r1, seq![')'] + r2);
                assert(r1 =~= (seq![')'] + r1).skip(1));
                assert(r2 =~= (seq![')'] + r2).skip(1));
            }
        },
    }
}

/// The named term `n` is written in `cs` from position `pos` on (a name
/// is not continued by a name character).
pub open spec fn reads(cs: Seq<char>, pos: int, n: Named) -> bool {
    &&& wf_named(n)
    &&& 0 <= pos
    &&& pos + text(n).len() <= cs.len()
    &&& cs.subrange(pos, pos + text(n).len()) == text(n)
    &&& n is Var ==> delimited(cs.skip(pos + text(n).len()))
}

proof fn lemma_reads_split(cs: Seq<char>, pos: int, n: Named)
    requires
        reads(cs, pos, n),
    ensures
        cs.skip(pos) == text(n) + cs.skip(pos + text(n).len()),
{
    assert(cs.skip(pos) =~= cs.subrange(pos, pos + text(n).len()) + cs.skip(pos + text(n).len()));
}

proof fn lemma_reads_unique(cs: Seq<char>, pos: int, n1: Named, n2: Named)
    requires
        reads(cs, pos, n1),
        reads(cs, pos, n2),
    ensures
        n1 == n2,
{
    lemma_reads_split(cs, pos, n1);
    lemma_reads_split(cs, pos, n2);
    lemma_text_unique(n1, n2, cs.skip(pos + text(n1).len()), cs.skip(pos + text(n2).len()));
}

/// `cs[pos..end]` is the longest run of name characters from `pos`.
pub open spec fn name_run(cs: Seq<char>, pos: int, end: int) -> bool {
    &&& 0 <= pos <= end <= cs.len()
    &&& forall|j: int| pos <= j < end ==> name_char(#[trigger] cs[j])
    &&& (end == cs.len() || !name_char(cs[end]))
}

/// A valid name written at `pos` and followed by `r` is the name run there.
proof fn lemma_name_at(cs: Seq<char>, pos: int, end: int, x: Seq<char>, r: Seq<char>)
    requires
        name_run(cs, pos, end),
        valid_name(x),
        cs.skip(pos) == x + r,
        delimited(r),
    ensures
        end > pos,
        x == cs.subrange(pos, end),
        r == cs.skip(end),
{
    assert(cs.skip(pos).len() == x.len() + r.len());
    assert(pos < cs.len());
    assert(cs.skip(pos)[0] == x[0]);
    assert(name_char(x[0]));
    assert(cs.skip(pos)[0] == cs[pos]);
    let y = cs.subrange(pos, end);
    assert(valid_name(y)) by {
        assert forall|i: int| 0 <= i < y.len() implies name_char(#[trigger] y[i]) by {
            assert(y[i] == cs[pos + i]);
        }
    }
    assert(cs.skip(pos) =~= y + cs.skip(end));
    if end < cs.len() {
        assert(cs.skip(end)[0] == cs[end]);
    }
    lemma_name_unique(x, r, y, cs.skip(end));
}

proof fn lemma_reads_lam(cs: Seq<char>, pos: int, end: int, n: Named)
    requires
        reads(cs, pos, n),
        n is Lam,
        name_run(cs, pos + 2, end),
    ensures
        end > pos + 2,
        n->Lam_name == cs.subrange(pos + 2, end),
        end + 1 < cs.len(),
        cs[end] == '.',
        cs[end + 1] == ' ',
        reads(cs, end + 2, *n->Lam_body),
        pos + text(n).len() == end + 2 + text(*n->Lam_body).len() + 1,
        cs[end + 2 + text(*n->Lam_body).len()] == ')',
{
    let x = n->Lam_name;
    let b = *n->Lam_body;
    let rest = cs.skip(pos + text(n).len());
    lemma_reads_split(cs, pos, n);
    let rx = seq!['.', ' '] + text(b) + seq![')'] + rest;
    assert(cs.skip(pos + 2) =~= (text(n) + rest).skip(2));
    assert((text(n) + rest).skip(2) =~= x + rx);
    assert(!name_char('.'));
    lemma_name_at(cs, pos + 2, end, x, rx);
    assert(cs[end] == rx[0]);
    assert(cs[end + 1] == rx[1]);
    let q = end + 2;
    assert(cs.subrange(q, q + text(b).len()) =~= text(b)) by {
        assert forall|i: int| 0 <= i < text(b).len() implies cs.subrange(q, q + text(b).len())[i]
            == text(b)[i] by {
            assert(cs[q + i] == rx[2 + i]);
        }
    }
    assert(cs[q + text(b).len()] == rx[2int + text(b).len()]);
    if b is Var {
        assert(cs.skip(q + text(b).len())[0] == cs[q + text(b).len()]);
    }
}

proof fn lemma_reads_app(cs: Seq<char>, pos: int, n: Named)
    requires
        reads(cs, pos, n),
        n is App,
    ensures
        reads(cs, pos + 1, *n->App_func),
        cs[pos + 1 + text(*n->App_func).len()] == ' ',
        reads(cs, pos + 2 + text(*n->App_func).len(), *n->App_arg),
        cs[pos + 2 + text(*n->App_func).len() + text(*n->App_arg).len()] == ')',
        pos + text(n).len() == pos + 3 + text(*n->App_func).len() + text(*n->App_arg).len(),
{
    let f = *n->App_func;
    let a = *n->App_arg;
    let t = text(n);
    assert(cs.subrange(pos, pos + t.len()) == t);
    let p1 = pos + 1;
    let p2 = pos + 2 + text(f).len();
    assert forall|i: int| 0 <= i < t.len() implies cs[pos + i] == #[trigger] t[i] by {
        assert(cs.subrange(pos, pos + t.len())[i] == t[i]);
    }
    assert(cs.subrange(p1, p1 + text(f).len()) =~= text(f)) by {
        assert forall|i: int| 0 <= i < text(f).len() implies cs.subrange(p1, p1 + text(f).len())[i]
            == text(f)[i] by {
            assert(t[1 + i] == text(f)[i]);
        }
    }
    assert(t[1int + text(f).len()] == ' ');
    assert(cs.subrange(p2, p2 + text(a).len()) =~= text(a)) by {
        assert forall|i: int| 0 <= i < text(a).len() implies cs.subrange(p2, p2 + text(a).len())[i]
            == text(a)[i] by {
            assert(t[2 + text(f).len() + i] == text(a)[i]);
        }
    }
    assert(t[2int + text(f).len() + text(a).len()] == ')');
    if f is Var {
        assert(cs.skip(p1 + text(f).len())[0] == cs[p1 + text(f).len()]);
    }
    if a is Var {
        assert(cs.skip(p2 + text(a).len())[0] == cs[p2 + text(a).len()]);
    }
}

/// The names of a scope of binders.
pub open spec fn names(s: Seq<Vec<char>>) -> Seq<Seq<char>> {
    s.map_values(|v: Vec<char>| v@)
}

proof fn lemma_lookup_at(s: Seq<Seq<char>>, x: Seq<char>, m: int)
    requires
        0 <= m < s.len(),
        s[m] == x,
        forall|j: int| m < j < s.len() ==> s[j] != x,
    ensures
        lookup(s, x) == Some((s.len() - 1 - m) as nat),
    decreases s.len(),
{
    if m < s.len() - 1 {
        assert(s.last() != x);
        lemma_lookup_at(s.drop_last(), x, m);
    }
}

proof fn lemma_lookup_none(s: Seq<Seq<char>>, x: Seq<char>)
    requires
        forall|j: int| 0 <= j < s.len() ==> s[j] != x,
    ensures
        lookup(s, x) is None,
    decreases s.len(),
{
    if s.len() > 0 {
        assert(s.last() != x);
        lemma_lookup_none(s.drop_last(), x);
    }
}

fn is_name_char(c: char) -> (b: bool)
    ensures
        b == name_char(c),
{
    ('a' <= c && c <= 'z') || ('A' <= c && c <= 'Z') || ('0' <= c && c <= '9') || c == '_'
}

fn scan_name(cs: &Vec<char>, pos: usize) -> (end: usize)
    requires
        pos <= cs@.len(),
    ensures
        name_run(cs@, pos as int, end as int),
{
    let mut end = pos;
    while end < cs.len() && is_name_char(cs[end])
        invariant
            pos <= end <= cs@.len(),
            forall|j: int| pos <= j < end ==> name_char(#[trigger] cs@[j]),
        decreases cs@.len() - end,
    {
        end = end + 1;
    }
    end
}

fn chars_between(cs: &Vec<char>, from: usize, to: usize) -> (r: Vec<char>)
    requires
        from <= to <= cs@.len(),
    ensures
        r@ == cs@.subrange(from as int, to as int),
{
    let mut r: Vec<char> = Vec::new();
    let mut i = from;
    while i < to
        invariant
            from <= i <= to <= cs@.len(),
            r@ == cs@.subrange(from as int, i as int),
        decreases to - i,
    {
        r.push(cs[i]);
        proof {
            assert(cs@.subrange(from as int, i + 1int) =~= cs@.subrange(from as int, i as int).push(
                cs@[i as int],
            ));
        }
        i = i + 1;
    }
    r
}

fn same_name(a: &Vec<char>, b: &Vec<char>) -> (r: bool)
    ensures
        r == (a@ == b@),
{
    if a.len() != b.len() {
        return false;
    }
    let mut i: usize = 0;
    while i < a.len()
        invariant
            a@.len() == b@.len(),
            i <= a@.len(),
            forall|j: int| 0 <= j < i ==> a@[j] == b@[j],
        decreases a@.len() - i,
    {
        if a[i] != b[i] {
            return false;
        }
        i = i + 1;
    }
    proof {
        assert(a@ =~= b@);
    }
    true
}

/// The De Bruijn index of a name in a scope of binders.
fn find_binder(scope: &Vec<Vec<char>>, name: &Vec<char>) -> (r: Option<usize>)
    ensures
        match r {
            Some(k) => lookup(names(scope@), name@) == Some(k as nat),
            None => lookup(names(scope@), name@) is None,
        },
{
    let ghost s = names(scope@);
    let mut i = scope.len();
    while i > 0
        invariant
            s == names(scope@),
            i <= scope@.len(),
            forall|j: int| i <= j < s.len() ==> s[j] != name@,
        decreases i,
    {
        i = i - 1;
        if same_name(&scope[i], name) {
            proof {
                lemma_lookup_at(s, name@, i as int);
            }
            return Some(scope.len() - 1 - i);
        }
    }
    proof {
        lemma_lookup_none(s, name@);
    }
    None
}

/// Reads a term in named notation from position `pos` of `cs`, with the
/// binders of `scope` around it; gives the nameless term and the position
/// after it.
fn parse_term(cs: &Vec<char>, pos: usize, scope: &mut Vec<Vec<char>>) -> (res: Option<(Term, usize)>)
    requires
        pos <= cs@.len(),
    ensures
        final(scope)@ == old(scope)@,
        match res {
            Some((t, e)) => exists|n: Named|
                #[trigger] reads(cs@, pos as int, n) && e == pos + text(n).len() && resolve(
                    n,
                    names(old(scope)@),
                ) == Some(t),
            None => forall|n: Named|
                #[trigger] reads(cs@, pos as int, n) ==> resolve(n, names(old(scope)@)) is None,
        },
    decreases cs@.len() - pos,
{
    let ghost sc = names(scope@);
    let ghost u = cs@;
    if pos >= cs.len() {
        proof {
            assert forall|n: Named| #[trigger] reads(u, pos as int, n) implies resolve(n, sc) is None by {
                lemma_text_head(n);
            }
        }
        return None;
    }
    let c = cs[pos];
    if is_name_char(c) {
        let end = scan_name(cs, pos);
        let name = chars_between(cs, pos, end);
        let ghost nv = Named::Var { name: name@ };
        proof {
            assert(valid_name(name@)) by {
                assert forall|i: int| 0 <= i < name@.len() implies name_char(#[trigger] name@[i]) by {
                    assert(name@[i] == u[pos + i]);
                }
            }
            if end < u.len() {
                assert(u.skip(end as int)[0] == u[end as int]);
            }
            assert(reads(u, pos as int, nv));
            assert forall|n: Named| #[trigger] reads(u, pos as int, n) implies n == nv by {
                lemma_reads_unique(u, pos as int, n, nv);
            }
        }
        match find_binder(scope, &name) {
            Some(k) => {
                let t = Term::Var { debruijn: k };
                return Some((t, end));
            },
            None => {
                return None;
            },
        }
    }
    if c != '(' {
        proof {
            assert forall|n: Named| #[trigger] reads(u, pos as int, n) implies resolve(n, sc) is None by {
                lemma_text_head(n);
                assert(u.subrange(pos as int, pos + text(n).len())[0] == u[pos as int]);
            }
        }
        return None;
    }
    if pos + 1 < cs.len() && cs[pos + 1] == '\u{3bb}' {
        // an abstraction
        let start = pos + 2;
        let end = scan_name(cs, start);
        proof {
            assert forall|n: Named| #[trigger] reads(u, pos as int, n) implies n is Lam by {
                lemma_text_head(n);
                assert(u.subrange(pos as int, pos + text(n).len())[0] == u[pos as int]);
                assert(u.subrange(pos as int, pos + text(n).len())[1] == u[pos + 1]);
            }
        }
        if end == start || cs.len() - end < 2 || cs[end] != '.' || cs[end + 1] != ' ' {
            proof {
                assert forall|n: Named| #[trigger] reads(u, pos as int, n) implies resolve(n, sc) is None by {
                    lemma_reads_lam(u, pos as int, end as int, n);
                }
            }
            return None;
        }
        let name = chars_between(cs, start, end);
        let ghost x = name@;
        proof {
            assert(names(scope@.push(name)) =~= sc.push(x));
        }
        scope.push(name);
        let body = parse_term(cs, end + 2, scope);
        let _ = scope.pop();
        proof {
            assert(scope@ =~= old(scope)@);
        }
        match body {
            None => {
                proof {
                    assert forall|n: Named| #[trigger] reads(u, pos as int, n) implies resolve(n, sc) is None by {
                        lemma_reads_lam(u, pos as int, end as int, n);
                        assert(reads(u, end + 2, *n->Lam_body));
                    }
                }
                return None;
            },
            Some((b, e)) => {
                let ghost nb = choose|nb: Named|
                    #[trigger] reads(u, end + 2, nb) && e == end + 2 + text(nb).len() && resolve(
                        nb,
                        sc.push(x),
                    ) == Some(b);
                if e >= cs.len() || cs[e] != ')' {
                    proof {
                        assert forall|n: Named| #[trigger] reads(u, pos as int, n) implies resolve(n, sc) is None by {
                            lemma_reads_lam(u, pos as int, end as int, n);
                            lemma_reads_unique(u, end + 2, *n->Lam_body, nb);
                        }
                    }
                    return None;
                }
                let t = Term::Abs { body: Rc::new(b) };
                proof {
                    let n = Named::Lam { name: x, body: Box::new(nb) };
                    assert(valid_name(x)) by {
                        assert forall|i: int| 0 <= i < x.len() implies name_char(#[trigger] x[i]) by {
                            assert(x[i] == u[start + i]);
                        }
                    }
                    assert(u.subrange(pos as int, e + 1) =~= text(n)) by {
                        assert(u.subrange(end + 2, end + 2 + text(nb).len()) == text(nb));
                        assert forall|i: int| 0 <= i < text(nb).len() implies u[end + 2 + i] == text(nb)[i] by {
                            assert(u.subrange(end + 2, end + 2 + text(nb).len())[i] == text(nb)[i]);
                        }
                    }
                    assert(reads(u, pos as int, n));
                }
                return Some((t, e + 1));
            },
        }
    }
    // an application
    proof {
        assert forall|n: Named| #[trigger] reads(u, pos as int, n) implies n is App by {
            lemma_text_head(n);
            assert(u.subrange(pos as int, pos + text(n).len())[0] == u[pos as int]);
            if n is Lam {
                assert(u.subrange(pos as int, pos + text(n).len())[1] == u[pos + 1]);
            }
        }
    }
    let func = parse_term(cs, pos + 1, scope);
    match func {
        None => {
            proof {
                assert forall|n: Named| #[trigger] reads(u, pos as int, n) implies resolve(n, sc) is None by {
                    lemma_reads_app(u, pos as int, n);
                    assert(reads(u, pos + 1, *n->App_func));
                }
            }
            return None;
        },
        Some((f, e1)) => {
            let ghost nf = choose|nf: Named|
                #[trigger] reads(u, pos + 1, nf) && e1 == pos + 1 + text(nf).len() && resolve(nf, sc)
                    == Some(f);
            if e1 >= cs.len() || cs[e1] != ' ' {
                proof {
                    assert forall|n: Named| #[trigger] reads(u, pos as int, n) implies resolve(n, sc) is None by {
                        lemma_reads_app(u, pos as int, n);
                        lemma_reads_unique(u, pos + 1, *n->App_func, nf);
                    }
                }
                return None;
            }
            let arg = parse_term(cs, e1 + 1, scope);
            match arg {
                None => {
                    proof {
                        assert forall|n: Named| #[trigger] reads(u, pos as int, n) implies resolve(n, sc) is None by {
                            lemma_reads_app(u, pos as int, n);
                            lemma_reads_unique(u, pos + 1, *n->App_func, nf);
                            assert(reads(u, e1 + 1, *n->App_arg));
                        }
                    }
                    return None;
                },
                Some((a, e2)) => {
                    let ghost na = choose|na: Named|
                        #[trigger] reads(u, e1 + 1, na) && e2 == e1 + 1 + text(na).len() && resolve(
                            na,
                            sc,
                        ) == Some(a);
                    if e2 >= cs.len() || cs[e2] != ')' {
                        proof {
                            assert forall|n: Named| #[trigger] reads(u, pos as int, n) implies resolve(n, sc) is None by {
                                lemma_reads_app(u, pos as int, n);
                                lemma_reads_unique(u, pos + 1, *n->App_func, nf);
                                lemma_reads_unique(u, e1 + 1, *n->App_arg, na);
                            }
                        }
                        return None;
                    }
                    let t = Term::App { func: Rc::new(f), arg: Rc::new(a) };
                    proof {
                        let n = Named::App { func: Box::new(nf), arg: Box::new(na) };
                        assert(u.subrange(pos as int, e2 + 1) =~= text(n)) by {
                            assert forall|i: int| 0 <= i < text(nf).len() implies u[pos + 1 + i] == text(nf)[i] by {
                                assert(u.subrange(pos + 1, pos + 1 + text(nf).len())[i] == text(nf)[i]);
                            }
                            assert forall|i: int| 0 <= i < text(na).len() implies u[e1 + 1 + i] == text(na)[i] by {
                                assert(u.subrange(e1 + 1, e1 + 1 + text(na).len())[i] == text(na)[i]);
                            }
                        }
                        assert(reads(u, pos as int, n));
                    }
                    return Some((t, e2 + 1));
                },
            }
        },
    }
}

/// Reads a closed term written in named notation; `None` where the string
/// is not the named notation of a closed term.
pub fn try_decode(s: &str) -> (res: Option<Term>)
    ensures
        match res {
            Some(t) => exists|n: Named|
                wf_named(n) && #[trigger] text(n) == s@ && resolve(n, Seq::empty()) == Some(t),
            None => !is_named_text(s@),
        },
{
    let cs = crate::format::chars_of(s);
    let mut scope: Vec<Vec<char>> = Vec::new();
    proof {
        assert(names(scope@) =~= Seq::<Seq<char>>::empty());
    }
    let r = parse_term(&cs, 0, &mut scope);
    proof {
        if is_named_text(s@) {
            let m = choose|m: Named|
                wf_named(m) && #[trigger] text(m) == s@ && resolve(m, Seq::empty()) is Some;
            assert(cs@.subrange(0, text(m).len() as int) =~= text(m));
            assert(cs@.skip(text(m).len() as int) =~= Seq::<char>::empty());
            assert(reads(cs@, 0, m));
        }
    }
    match r {
        Some((t, e)) => {
            if e == cs.len() {
                proof {
                    let n = choose|n: Named|
                        #[trigger] reads(cs@, 0, n) && e == text(n).len() && resolve(
                            n,
                            Seq::empty(),
                        ) == Some(t);
                    assert(cs@.subrange(0, e as int) =~= cs@);
                    assert(text(n) == s@);
                }
                Some(t)
            } else {
                proof {
                    let n = choose|n: Named|
                        #[trigger] reads(cs@, 0, n) && e == text(n).len() && resolve(
                            n,
                            Seq::empty(),
                        ) == Some(t);
                    if is_named_text(s@) {
                        let m = choose|m: Named|
                            wf_named(m) && #[trigger] text(m) == s@ && resolve(m, Seq::empty()) is Some;
                        lemma_reads_unique(cs@, 0, m, n);
                    }
                }
                None
            }
        },
        None => None,
    }
}

/// Reads a closed term written in named notation. A variable refers to the
/// innermost abstraction that binds its name.
pub fn decode(s: &str) -> (t: Term)
    requires
        is_named_text(s@),
    ensures
        exists|n: Named| wf_named(n) && #[trigger] text(n) == s@ && resolve(n, Seq::empty()) == Some(t),
{
    match try_decode(s) {
        Some(t) => t,
        None => {
            proof {
                assert(false);
            }
            Term::Var { debruijn: 0 }
        },
    }
}

// ---------------------------------------------------------------------------
// Printing and reading back
// ---------------------------------------------------------------------------

/// The names that the printer gives to the binders around a subterm at the
/// given depth.
pub open spec fn level_names(depth: nat) -> Seq<Seq<char>> {
    Seq::new(depth, |i: int| level_name(i as nat))
}

/// The named term that the printer writes for `t` at the given depth.
pub open spec fn printed(t: Term, depth: nat) -> Named
    decreases t,
{
    match t {
        Term::Var { debruijn } => Named::Var { name: level_name((depth - 1 - debruijn) as nat) },
        Term::Abs { body } => Named::Lam {
            name: level_name(depth),
            body: Box::new(printed(*body, depth + 1)),
        },
        Term::App { func, arg } => Named::App {
            func: Box::new(printed(*func, depth)),
            arg: Box::new(printed(*arg, depth)),
        },
    }
}

proof fn lemma_level_name(k: nat)
    ensures
        valid_name(level_name(k)),
{
    let x = level_name(k);
    assert forall|i: int| 0 <= i < x.len() implies name_char(#[trigger] x[i]) by {
        assert(x[i] == letter(k % 26));
    }
}

proof fn lemma_level_name_injective(k1: nat, k2: nat)
    requires
        level_name(k1) == level_name(k2),
    ensures
        k1 == k2,
{
    let x = level_name(k1);
    assert(x[0] == letter(k1 % 26));
    assert(level_name(k2)[0] == letter(k2 % 26));
    assert((97 + k1 % 26) as char == (97 + k2 % 26) as char);
    assert(k1 % 26 == k2 % 26);
    assert(level_name(k1).len() == k1 / 26 + 1);
    assert(level_name(k2).len() == k2 / 26 + 1);
    assert(k1 / 26 == k2 / 26);
}

proof fn lemma_printed(t: Term, depth: nat)
    requires
        scoped(t, depth),
    ensures
        wf_named(printed(t, depth)),
        text(printed(t, depth)) == named_text(t, depth),
        resolve(printed(t, depth), level_names(depth)) == Some(t),
    decreases t,
{
    match t {
        Term::Var { debruijn } => {
            let k = (depth - 1 - debruijn) as nat;
            lemma_level_name(k);
            let s = level_names(depth);
            assert forall|j: int| k < j < s.len() implies s[j] != level_name(k) by {
                if s[j] == level_name(k) {
                    lemma_level_name_injective(j as nat, k);
                }
            }
            lemma_lookup_at(s, level_name(k), k as int);
        },
        Term::Abs { .. } => {
            lemma_level_name(depth);
            lemma_printed(body_of(t), depth + 1);
            assert(level_names(depth).push(level_name(depth)) =~= level_names(depth + 1));
        },
        Term::App { .. } => {
            lemma_printed(func_of(t), depth);
            lemma_printed(arg_of(t), depth);
        },
    }
}

/// Reading back the named notation of a closed term gives the term: the
/// printed text is named notation, and every named term written so stands
/// for the term printed.
pub proof fn lemma_named_roundtrip(t: Term)
    requires
        closed(t),
    ensures
        is_named_text(named_text(t, 0)),
        forall|n: Named|
            wf_named(n) && #[trigger] text(n) == named_text(t, 0) ==> resolve(n, Seq::empty())
                == Some(t),
{
    lemma_printed(t, 0);
    assert(level_names(0) =~= Seq::<Seq<char>>::empty());
    assert forall|n: Named|
        wf_named(n) && #[trigger] text(n) == named_text(t, 0) implies resolve(n, Seq::empty())
        == Some(t) by {
        assert(text(n) + Seq::<char>::empty() =~= text(printed(t, 0)) + Seq::<char>::empty());
        lemma_text_unique(n, printed(t, 0), Seq::empty(), Seq::empty());
    }
}

} // verus!
