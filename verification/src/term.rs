//! Lambda terms in the nameless representation, with their scoping,
//! normal forms and pre-order traversal.
use std::rc::Rc;
use vstd::prelude::*;

verus! {

/// Lambda expression / term, in the nameless representation with De Bruijn
/// indices.
#[derive(Clone, Debug)]
pub enum Term {
    Var { debruijn: usize },
    Abs { body: Rc<Term> },
    App { func: Rc<Term>, arg: Rc<Term> },
}

/// The body of an abstraction.
pub open spec fn body_of(t: Term) -> Term
    recommends
        t is Abs,
{
    match t {
        Term::Abs { body } => *body,
        _ => t,
    }
}

/// The function part of an application.
pub open spec fn func_of(t: Term) -> Term
    recommends
        t is App,
{
    match t {
        Term::App { func, .. } => *func,
        _ => t,
    }
}

/// The argument of an application.
pub open spec fn arg_of(t: Term) -> Term
    recommends
        t is App,
{
    match t {
        Term::App { arg, .. } => *arg,
        _ => t,
    }
}

/// Number of nodes of a term.
pub open spec fn size(t: Term) -> nat
    decreases t,
{
    match t {
        Term::Var { .. } => 1,
        Term::Abs { body } => 1 + size(*body),
        Term::App { func, arg } => 1 + size(*func) + size(*arg),
    }
}

/// Every variable of `t` refers to a binder of `t` or to one of `depth`
/// binders that enclose `t`.
pub open spec fn scoped(t: Term, depth: nat) -> bool
    decreases t,
{
    match t {
        Term::Var { debruijn } => debruijn < depth,
        Term::Abs { body } => scoped(*body, depth + 1),
        Term::App { func, arg } => scoped(*func, depth) && scoped(*arg, depth),
    }
}

/// `t` has no free variables.
pub open spec fn closed(t: Term) -> bool {
    scoped(t, 0)
}

/// `t` contains no beta-redex, i.e. it is in beta-normal form.
pub open spec fn normal(t: Term) -> bool
    decreases t,
{
    match t {
        Term::Var { .. } => true,
        Term::Abs { body } => normal(*body),
        Term::App { func, arg } => !(*func is Abs) && normal(*func) && normal(*arg),
    }
}

/// The largest number of abstractions nested along one path of `t`.
pub open spec fn abs_depth(t: Term) -> nat
    decreases t,
{
    match t {
        Term::Var { .. } => 0,
        Term::Abs { body } => 1 + abs_depth(*body),
        Term::App { func, arg } => {
            let f = abs_depth(*func);
            let a = abs_depth(*arg);
            if f >= a { f } else { a }
        },
    }
}

/// The nodes of `t` in pre-order: each node before the nodes of its
/// children, the function of an application before its argument.
pub open spec fn preorder(t: Term) -> Seq<Term>
    decreases t,
{
    match t {
        Term::Var { .. } => seq![t],
        Term::Abs { body } => seq![t] + preorder(*body),
        Term::App { func, arg } => seq![t] + preorder(*func) + preorder(*arg),
    }
}

/// Pre-order lists every node once, a node before the nodes below it, and
/// the function of an application before its argument: it starts with the
/// term itself, and in an application the function comes right after it
/// and the argument right after all nodes of the function.
pub proof fn lemma_preorder_law(t: Term)
    ensures
        preorder(t).len() == size(t),
        preorder(t)[0] == t,
        t is Abs ==> preorder(t)[1] == *t->body,
        t is App ==> preorder(t)[1] == *t->func && preorder(t)[1 + size(*t->func) as int] == *t->arg,
    decreases t,
{
    match t {
        Term::Var { .. } => {},
        Term::Abs { .. } => {
            lemma_preorder_law(body_of(t));
        },
        Term::App { .. } => {
            let f = func_of(t);
            let a = arg_of(t);
            lemma_preorder_law(f);
            lemma_preorder_law(a);
            assert((seq![t] + preorder(f) + preorder(a))[1 + size(f) as int] == preorder(a)[0]);
        },
    }
}

/// The terms behind a sequence of references.
pub open spec fn derefs(s: Seq<&Term>) -> Seq<Term> {
    s.map_values(|r: &Term| *r)
}

/// Pre-order nodes of the terms of a stack, taken from its top (its last
/// element) down.
pub open spec fn stack_preorder(s: Seq<Term>) -> Seq<Term>
    decreases s.len(),
{
    if s.len() == 0 {
        Seq::empty()
    } else {
        preorder(s.last()) + stack_preorder(s.drop_last())
    }
}

/// Total number of nodes of the terms of a stack.
pub open spec fn stack_size(s: Seq<Term>) -> nat
    decreases s.len(),
{
    if s.len() == 0 {
        0
    } else {
        size(s.last()) + stack_size(s.drop_last())
    }
}

impl Term {
    /// Traverse the ast of a lambda expression in pre-order and return its
    /// nodes in that order. The traversal is iterative, so that large terms
    /// do not exhaust the call stack.
    pub fn preorder_nodes(&self) -> (nodes: Vec<&Term>)
        ensures
            derefs(nodes@) == preorder(*self),
    {
        let mut nodes: Vec<&Term> = Vec::new();
        let mut stack: Vec<&Term> = Vec::new();
        stack.push(self);
        proof {
            assert(derefs(stack@).drop_last() =~= Seq::<Term>::empty());
            assert(derefs(stack@).last() == *self);
            assert(stack_preorder(Seq::<Term>::empty()) =~= Seq::<Term>::empty());
            assert(derefs(nodes@) =~= Seq::<Term>::empty());
            assert(stack_preorder(derefs(stack@)) =~= preorder(*self));
        }
        while stack.len() > 0
            invariant
                derefs(nodes@) + stack_preorder(derefs(stack@)) == preorder(*self),
            decreases stack_size(derefs(stack@)),
        {
            let ghost old_stack = derefs(stack@);
            let ghost old_nodes = derefs(nodes@);
            let node = stack.pop().unwrap();
            proof {
                assert(derefs(stack@) =~= old_stack.drop_last());
            }
            nodes.push(node);
            proof {
                assert(derefs(nodes@) =~= old_nodes.push(*node));
            }
            let ghost rest = derefs(stack@);
            match node {
                Term::Var { .. } => {
                    proof {
                        assert(derefs(nodes@) + stack_preorder(rest) =~= old_nodes
                            + stack_preorder(old_stack));
                    }
                },
                Term::Abs { body } => {
                    let b: &Term = body;
                    stack.push(b);
                    proof {
                        assert(derefs(stack@) =~= rest.push(*b));
                        assert(derefs(stack@).drop_last() =~= rest);
                        assert(derefs(stack@).last() == *b);
                        assert(derefs(nodes@) + stack_preorder(derefs(stack@)) =~= old_nodes
                            + stack_preorder(old_stack));
                    }
                },
                Term::App { func, arg } => {
                    let f: &Term = func;
                    let a: &Term = arg;
                    stack.push(a);
                    stack.push(f);
                    proof {
                        let mid = rest.push(*a);
                        assert(derefs(stack@) =~= mid.push(*f));
                        assert(derefs(stack@).drop_last() =~= mid);
                        assert(mid.drop_last() =~= rest);
                        assert(derefs(stack@).last() == *f);
                        assert(mid.last() == *a);
                        assert(stack_preorder(mid) == preorder(*a) + stack_preorder(rest));
                        assert(stack_size(mid) == size(*a) + stack_size(rest));
                        assert(derefs(nodes@) + stack_preorder(derefs(stack@)) =~= old_nodes
                            + stack_preorder(old_stack));
                    }
                },
            }
        }
        proof {
            assert(derefs(nodes@) + stack_preorder(derefs(stack@)) =~= derefs(nodes@));
        }
        nodes
    }

    /// Traverse the ast of a lambda expression in pre-order and perform some
    /// action on each node: `action` is called once on every node, in the
    /// order of `preorder_nodes`. A call of an `FnMut` action is specified
    /// as leaving the action as it was, so a contract can say which nodes
    /// are passed but not in which order; the order is that of the list
    /// that `preorder_nodes` returns, whose contract states it exactly, and
    /// the loop below passes its entries by increasing index.
    pub fn preorder_traverse<F>(&self, mut action: F)
        where
            F: FnMut(&Term),
        requires
            forall|t: &Term| #[trigger] call_requires(action, (t,)),
        ensures
            forall|i: int|
                0 <= i < preorder(*self).len() ==> call_ensures(
                    action,
                    (&#[trigger] preorder(*self)[i],),
                    (),
                ),
    {
        let nodes = self.preorder_nodes();
        let ghost a0 = action;
        let mut i: usize = 0;
        while i < nodes.len()
            invariant
                action == a0,
                i <= nodes@.len(),
                derefs(nodes@) == preorder(*self),
                forall|t: &Term| #[trigger] call_requires(action, (t,)),
                forall|j: int|
                    0 <= j < i ==> call_ensures(action, (&#[trigger] preorder(*self)[j],), ()),
            decreases nodes@.len() - i,
        {
            action(nodes[i]);
            i = i + 1;
        }
        assert(derefs(nodes@).len() == nodes@.len());
    }
}

impl Term {
    /// The term in named notation, as `format::named::encode` prints it.
    pub fn to_named_string(&self) -> (res: String)
        requires
            closed(*self),
            abs_depth(*self) <= usize::MAX,
        ensures
            res@ == crate::format::named::named_text(*self, 0),
    {
        crate::format::named::encode(self)
    }

    /// The term with De Bruijn indices, as
    /// `format::named::encode_to_debruijn` prints it.
    pub fn to_debruijn_string(&self) -> (res: String)
        ensures
            res@ == crate::format::named::debruijn_text(*self),
    {
        crate::format::named::encode_to_debruijn(self)
    }
}

} // verus!
