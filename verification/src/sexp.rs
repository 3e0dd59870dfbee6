//! Expressions as they are written with brackets.
use crate::ast_node::expr::{lemma_trees, tree, Expr, Tree};
use crate::ast_node::{has_arity, takes, Arity, ArityError};
use crate::rewrites::pattern::ReadOp;
use std::sync::Arc;
use vstd::prelude::*;

verus! {

/// An operation by itself, or with its arguments in brackets.
#[derive(Debug)]
pub enum Sexp {
    Atom(String),
    List(String, Vec<Sexp>),
}

/// The text of the operation.
pub open spec fn head(s: Sexp) -> Seq<char> {
    match s {
        Sexp::Atom(op) => op@,
        Sexp::List(op, _) => op@,
    }
}

/// The arguments.
pub open spec fn arguments(s: Sexp) -> Seq<Sexp> {
    match s {
        Sexp::Atom(_) => Seq::empty(),
        Sexp::List(_, args) => args@,
    }
}

/// Why an expression cannot be read.
#[derive(Debug)]
pub enum ParseNodeError<Op> {
    /// A text is no operation.
    ParseError(String),
    /// An operation does not take so many arguments.
    ArityError(ArityError<Op>),
}

/// Whether a tree was read.
pub open spec fn reads_tree<Op: ReadOp + Arity>(s: Sexp, t: Tree<Op>) -> bool
    decreases t,
{
    &&& Op::s_reads(head(s), Some(t.operation))
    &&& takes(t.operation, arguments(s).len() as int)
    &&& t.args.len() == arguments(s).len()
    &&& forall|i: int|
        0 <= i < t.args.len() ==> reads_tree(arguments(s)[i], #[trigger] t.args[i])
}

/// Whether an expression can be read.
pub open spec fn readable<Op: ReadOp + Arity>(s: Sexp) -> bool {
    exists|t: Tree<Op>| reads_tree(s, t)
}

/// Whether this is the first failure of reading an expression, where `d`
/// bounds the depth: its operation cannot be read; or it can, and an argument
/// fails that comes behind arguments that can be read; or all of them can be
/// read, and the operation does not take so many.
pub open spec fn fails<Op: ReadOp + Arity>(s: Sexp, e: ParseNodeError<Op>, d: nat) -> bool
    decreases d,
{
    ||| e matches ParseNodeError::ParseError(text) && text@ == head(s) && Op::s_reads(
        head(s),
        None::<Op>,
    )
    ||| d > 0 && exists|op: Op, i: int|
        #![trigger Op::s_reads(head(s), Some(op)), arguments(s)[i]]
        {
            &&& Op::s_reads(head(s), Some(op))
            &&& 0 <= i < arguments(s).len()
            &&& forall|k: int| 0 <= k < i ==> readable::<Op>(#[trigger] arguments(s)[k])
            &&& fails(arguments(s)[i], e, (d - 1) as nat)
        }
    ||| e matches ParseNodeError::ArityError(a) && {
        &&& Op::s_reads(head(s), Some(a.operation))
        &&& a.actual == arguments(s).len()
        &&& !takes(a.operation, arguments(s).len() as int)
        &&& forall|k: int|
            0 <= k < arguments(s).len() ==> readable::<Op>(#[trigger] arguments(s)[k])
    }
}

impl Sexp {
    fn text(&self) -> (r: &String)
        ensures
            r@ == head(*self),
    {
        match self {
            Sexp::Atom(op) => op,
            Sexp::List(op, _) => op,
        }
    }
}

impl<Op: ReadOp + Arity> Expr<Op> {
    /// Reads an expression. The operation of an expression is read before its
    /// arguments, and they before their number is looked at.
    pub fn try_from_sexp(sexp: &Sexp) -> (r: Result<Self, ParseNodeError<Op>>)
        ensures
            match r {
                Ok(e) => reads_tree(*sexp, tree(e)),
                Err(e) => exists|d: nat| fails(*sexp, e, d),
            },
        decreases sexp,
    {
        let op: Op = match Op::read_op(sexp.text().as_str()) {
            Some(op) => op,
            None => {
                let e: ParseNodeError<Op> = ParseNodeError::ParseError(sexp.text().clone());
                assert(fails(*sexp, e, 0));
                return Err(e);
            },
        };
        let mut args: Vec<Arc<Expr<Op>>> = Vec::new();
        if let Sexp::List(_, given) = sexp {
            let n: usize = given.len();
            for i in 0..n
                invariant
                    *sexp matches Sexp::List(_, v) && v == given,
                    n == given@.len(),
                    args@.len() == i,
                    Op::s_reads(head(*sexp), Some(op)),
                    forall|k: int|
                        0 <= k < i ==> reads_tree(given@[k], tree(*(#[trigger] args@[k]))),
            {
                proof {
                    assert(decreases_to!(*sexp => *given));
                    assert(decreases_to!(*given => given@));
                    assert(decreases_to!(given@ => given@[i as int]));
                }
                match Expr::try_from_sexp(&given[i]) {
                    Ok(e) => {
                        args.push(Arc::new(e));
                    },
                    Err(e) => {
                        proof {
                            let d = choose|d: nat| fails(given@[i as int], e, d);
                            let all = arguments(*sexp);
                            assert(all == given@);
                            assert forall|k: int| 0 <= k < i implies readable::<Op>(
                                #[trigger] all[k],
                            ) by {
                                assert(reads_tree(given@[k], tree(*args@[k])));
                            }
                            assert(all[i as int] == given@[i as int]);
                            assert(fails(*sexp, e, d + 1));
                        }
                        return Err(e);
                    },
                }
            }
        }
        if !has_arity(&op, args.len()) {
            proof {
                let all = arguments(*sexp);
                assert forall|k: int| 0 <= k < all.len() implies readable::<Op>(
                    #[trigger] all[k],
                ) by {
                    assert(reads_tree(all[k], tree(*args@[k])));
                }
            }
            let e: ParseNodeError<Op> = ParseNodeError::ArityError(
                ArityError { operation: op, actual: args.len() },
            );
            assert(fails(*sexp, e, 0));
            return Err(e);
        }
        let r: Expr<Op> = Expr { operation: op, args };
        proof {
            lemma_trees(r.args@);
            let t = tree(r);
            assert forall|i: int| 0 <= i < t.args.len() implies reads_tree(
                arguments(*sexp)[i],
                #[trigger] t.args[i],
            ) by {
                assert(t.args[i] == tree(*r.args@[i]));
            }
        }
        Ok(r)
    }
}

} // verus!
