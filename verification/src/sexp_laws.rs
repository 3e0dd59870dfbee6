//! How expressions with brackets are read.
use crate::ast_node::expr::{lemma_trees, tree, trees, Expr, Tree};
use crate::ast_node::Arity;
use crate::rewrites::pattern::ReadOp;
use crate::sexp::{arguments, head, reads_tree, ParseNodeError, Sexp};
use vstd::prelude::*;

verus! {

/// What is read of a text has the operation that its head spells, as many
/// arguments as are written, in their order, and no fewer and no more than the
/// operation takes.
pub proof fn law_written_expression<Op: ReadOp + Arity>(
    sexp: &Sexp,
    r: Result<Expr<Op>, ParseNodeError<Op>>,
)
    requires
        call_ensures(Expr::<Op>::try_from_sexp, (sexp,), r),
        r is Ok,
    ensures
        ({
            let e = r->Ok_0;
            let written = match *sexp {
                Sexp::Atom(text) => (text@, Seq::<Sexp>::empty()),
                Sexp::List(text, args) => (text@, args@),
            };
            &&& Op::s_reads(written.0, Some(e.operation))
            &&& e.args@.len() == written.1.len()
            &&& e.operation.s_min_arity() <= written.1.len()
            &&& e.operation.s_max_arity() is Some ==> written.1.len()
                <= e.operation.s_max_arity()->Some_0
            &&& forall|i: int|
                0 <= i < written.1.len() ==> reads_tree(
                    written.1[i],
                    tree(*(#[trigger] e.args@[i])),
                )
        }),
{
    let e = r->Ok_0;
    let t = tree(e);
    lemma_trees(e.args@);
    assert(t.args == trees(e.args@));
    assert forall|i: int| 0 <= i < arguments(*sexp).len() implies reads_tree(
        arguments(*sexp)[i],
        tree(*(#[trigger] e.args@[i])),
    ) by {
        assert(t.args[i] == tree(*e.args@[i]));
    }
    assert(head(*sexp) == match *sexp {
        Sexp::Atom(text) => text@,
        Sexp::List(text, _) => text@,
    });
}

/// An expression is read in one way.
pub proof fn law_read_in_one_way<Op: ReadOp + Arity>(s: Sexp, a: Tree<Op>, b: Tree<Op>)
    requires
        reads_tree(s, a),
        reads_tree(s, b),
    ensures
        a == b,
    decreases a,
{
    Op::reads_one_way();
    assert(Some(a.operation) == Some(b.operation));
    assert forall|i: int| 0 <= i < a.args.len() implies #[trigger] a.args[i] == b.args[i] by {
        assert(reads_tree(arguments(s)[i], b.args[i]));
        assert(decreases_to!(a => a.args));
        law_read_in_one_way(arguments(s)[i], a.args[i], b.args[i]);
    }
    assert(a.args =~= b.args);
}

} // verus!
