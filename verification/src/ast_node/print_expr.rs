//! Printing the nodes of an expression, each of them once.
use crate::ast_node::expr::{root_tree, tree, Expr};
use crate::ast_node::pretty::{
    line_break, too_long, ExprMemoizer, Memoize, Precedence, Printer,
};
use crate::ast_node::{AstNode, Duplicate, NodeView};
use crate::number::Number;
use crate::rec_expr::{points_back, RecExpr};
use crate::teachable::{binding_of, law_binding_parts_are_args, parts_of, BindingExpr, Teachable};
use crate::text::{decimal, decimal_text, texts};
use std::fmt;
use std::sync::Arc;
use vstd::prelude::*;

verus! {

/// Where the arguments of an operation are broken into lines.
#[derive(Clone, Copy, Debug, PartialEq, Eq, Structural)]
pub enum Breaks {
    Never,
    Always,
    /// Where they are too long for one line.
    WhenLong,
}

/// A piece of what is printed for an operation.
#[derive(Debug)]
pub enum Piece {
    Text(String),
    /// Begins a line.
    Line,
    /// What follows stands one level further in.
    Indent,
    /// What follows stands one level further out.
    Dedent,
    /// An argument, by its index, and the precedence of its context, where it
    /// is not that of the operation.
    Arg(usize, Option<Precedence>),
}

/// The contents of a [`Piece`].
#[verifier::ext_equal]
pub enum PieceView {
    Text(Seq<char>),
    Line,
    Indent,
    Dedent,
    Arg(usize, Option<Precedence>),
}

impl View for Piece {
    type V = PieceView;

    open spec fn view(&self) -> PieceView {
        match *self {
            Piece::Text(text) => PieceView::Text(text@),
            Piece::Line => PieceView::Line,
            Piece::Indent => PieceView::Indent,
            Piece::Dedent => PieceView::Dedent,
            Piece::Arg(j, context) => PieceView::Arg(j, context),
        }
    }
}

/// The contents of pieces.
pub open spec fn piece_views(s: Seq<Piece>) -> Seq<PieceView> {
    Seq::new(s.len(), |k: int| s[k]@)
}

/// How an operation is printed: a text, then any pieces in turn, then, where
/// `args`, its arguments, then another text.
#[derive(Debug)]
pub struct Layout {
    pub before: String,
    pub pieces: Vec<Piece>,
    pub after: String,
    /// Whether the arguments are printed.
    pub args: bool,
    /// What stands between two arguments.
    pub sep: String,
    /// Whether the arguments are indented.
    pub indent: bool,
    pub breaks: Breaks,
    /// The precedence of the context of the arguments, where it is not that
    /// of the operation.
    pub context: Option<Precedence>,
}

/// The contents of a [`Layout`].
#[verifier::ext_equal]
pub struct LayoutView {
    pub before: Seq<char>,
    pub pieces: Seq<PieceView>,
    pub after: Seq<char>,
    pub args: bool,
    pub sep: Seq<char>,
    pub indent: bool,
    pub breaks: Breaks,
    pub context: Option<Precedence>,
}

impl View for Layout {
    type V = LayoutView;

    open spec fn view(&self) -> LayoutView {
        LayoutView {
            before: self.before@,
            pieces: piece_views(self.pieces@),
            after: self.after@,
            args: self.args,
            sep: self.sep@,
            indent: self.indent,
            breaks: self.breaks,
            context: self.context,
        }
    }
}

impl Layout {
    /// The layout of an operation that is printed as a text alone.
    pub fn word(text: String) -> (r: Self)
        ensures
            r@ == word_view(text@),
    {
        let r = Layout {
            before: text,
            pieces: Vec::new(),
            after: String::new(),
            args: false,
            sep: String::new(),
            indent: false,
            breaks: Breaks::Never,
            context: None,
        };
        assert(r@ =~= word_view(text@));
        r
    }
}

/// The layout of an operation that is printed as a text alone.
pub open spec fn word_view(text: Seq<char>) -> LayoutView {
    LayoutView {
        before: text,
        pieces: Seq::empty(),
        after: Seq::empty(),
        args: false,
        sep: Seq::empty(),
        indent: false,
        breaks: Breaks::Never,
        context: None,
    }
}

/// Operations that can be printed.
pub trait Printable: Sized {
    open spec fn s_precedence(&self) -> Precedence {
        arbitrary()
    }

    open spec fn s_layout(&self, args: nat) -> LayoutView {
        arbitrary()
    }

    /// The precedence of the operation: whether an expression with it is put
    /// in parentheses.
    fn precedence(&self) -> (r: Precedence)
        ensures
            r == self.s_precedence(),
    ;

    /// How the operation is printed with so many arguments.
    fn layout(&self, args: usize) -> (r: Layout)
        ensures
            r@ == self.s_layout(args as nat),
    ;
}

/// The state of printing.
#[verifier::ext_equal]
pub struct PrintState {
    pub out: Seq<char>,
    pub precedence: Precedence,
    pub bindings: Seq<Seq<char>>,
    pub indentation: nat,
    pub memo: Map<usize, usize>,
    pub next_id: nat,
}

impl PrintState {
    /// The state with a text printed.
    pub open spec fn write(self, text: Seq<char>) -> PrintState {
        PrintState { out: self.out + text, ..self }
    }

    /// The state with a line begun, or `None` where the indentation is too
    /// deep.
    pub open spec fn line(self) -> Option<PrintState> {
        if self.indentation * 2 <= usize::MAX {
            Some(self.write(line_break(self.indentation as usize)))
        } else {
            None
        }
    }
}

/// The number of a node in brackets.
pub open spec fn tag(id: nat) -> Seq<char> {
    seq!['['] + decimal(id) + seq![']']
}

/// The state after the node at `i` is printed in the context of the state.
/// `None` where it cannot be: a variable is not bound, an application has the
/// lowest precedence, or a number is too large.
pub open spec fn printed<Op, N>(e: Seq<NodeView<Op>>, i: int, st: PrintState) -> Option<
    PrintState,
> where Op: Printable + Teachable<N>, N: Number
    decreases i, 3nat, 0nat,
{
    let own = e[i].operation.s_precedence();
    let parens = own <= st.precedence;
    let start = PrintState { precedence: own, ..st };
    match memoized::<Op, N>(
        e,
        i,
        if parens {
            start.write(seq!['('])
        } else {
            start
        },
    ) {
        None => None,
        Some(s) => Some(
            PrintState {
                precedence: st.precedence,
                ..if parens {
                    s.write(seq![')'])
                } else {
                    s
                }
            },
        ),
    }
}

/// The state after the node at `i` is printed at a given precedence.
pub open spec fn in_context<Op, N>(
    e: Seq<NodeView<Op>>,
    i: int,
    precedence: Precedence,
    st: PrintState,
) -> Option<PrintState> where Op: Printable + Teachable<N>, N: Number
    decreases i, 4nat, 0nat,
{
    match printed::<Op, N>(e, i, PrintState { precedence, ..st }) {
        None => None,
        Some(s) => Some(PrintState { precedence: st.precedence, ..s }),
    }
}

/// The state after the node at `i` is printed without parentheses: its number
/// alone, where it was printed before.
pub open spec fn memoized<Op, N>(e: Seq<NodeView<Op>>, i: int, st: PrintState) -> Option<
    PrintState,
> where Op: Printable + Teachable<N>, N: Number
    decreases i, 2nat, 0nat,
{
    if st.memo.dom().contains(i as usize) {
        Some(st.write(tag(st.memo[i as usize] as nat)))
    } else if st.next_id < usize::MAX {
        let id = st.next_id;
        naked::<Op, N>(
            e,
            i,
            (PrintState {
                memo: st.memo.insert(i as usize, id as usize),
                next_id: id + 1,
                ..st
            }).write(tag(id) + seq![':']),
        )
    } else {
        None
    }
}

/// The state after what stands behind the number of the node at `i`.
pub open spec fn naked<Op, N>(e: Seq<NodeView<Op>>, i: int, st: PrintState) -> Option<
    PrintState,
> where Op: Printable + Teachable<N>, N: Number
    decreases i, 1nat, 0nat,
{
    match binding_of::<Op, usize, N>(e[i]) {
        Some(BindingExpr::Lambda(body)) => if body < i {
            abstraction::<Op, N>(e, body as int, st.write("λ"@))
        } else {
            None
        },
        Some(BindingExpr::Apply(fun, arg)) => if fun < i && arg < i && st.precedence > 0 {
            match in_context::<Op, N>(e, fun as int, (st.precedence - 1) as u8, st) {
                None => None,
                Some(s) => printed::<Op, N>(e, arg as int, s.write(seq![' '])),
            }
        } else {
            None
        },
        Some(BindingExpr::Var(index)) => if index.0 < st.bindings.len() {
            Some(st.write(st.bindings[st.bindings.len() - 1 - index.0]))
        } else {
            None
        },
        Some(BindingExpr::Lib(id, value, body, _, _, _)) => if value < i && body < i {
            definition::<Op, N>(e, i, id.shown(), value as int, body as int, st)
        } else {
            None
        },
        Some(BindingExpr::LibVar(id)) => Some(st.write(id.shown())),
        None => laid_out::<Op, N>(e, i, e[i].operation.s_layout(e[i].args.len()), st),
    }
}

/// The state with one more variable bound.
pub open spec fn with_name(st: PrintState, prefix: char) -> PrintState {
    PrintState {
        bindings: st.bindings.push(seq![prefix] + decimal(st.bindings.len())),
        ..st
    }
}

/// The state after a lambda whose body is the node at `i`, without the sign
/// of the lambda. Directly nested lambdas are printed as one.
pub open spec fn abstraction<Op, N>(e: Seq<NodeView<Op>>, i: int, st: PrintState) -> Option<
    PrintState,
> where Op: Printable + Teachable<N>, N: Number
    decreases i, 5nat, 0nat,
{
    let s = with_name(st, 'x');
    let named = s.write(s.bindings.last() + seq![' ']);
    let r = match binding_of::<Op, usize, N>(e[i]) {
        Some(BindingExpr::Lambda(body)) => if body < i {
            abstraction::<Op, N>(e, body as int, named)
        } else {
            None
        },
        _ => in_context::<Op, N>(e, i, 0, named.write("-> "@)),
    };
    match r {
        None => None,
        Some(t) => Some(PrintState { bindings: st.bindings, ..t }),
    }
}

/// The state after a line is begun one level further in and the node at `i`
/// is printed there.
pub open spec fn block<Op, N>(e: Seq<NodeView<Op>>, i: int, st: PrintState) -> Option<
    PrintState,
> where Op: Printable + Teachable<N>, N: Number
    decreases i, 6nat, 0nat,
{
    match (PrintState { indentation: st.indentation + 1, ..st }).line() {
        None => None,
        Some(s) => match in_context::<Op, N>(e, i, 0, s) {
            None => None,
            Some(t) => Some(PrintState { indentation: st.indentation, ..t }),
        },
    }
}

/// The state after the definition of a library function.
pub open spec fn definition<Op, N>(
    e: Seq<NodeView<Op>>,
    i: int,
    name: Seq<char>,
    value: int,
    body: int,
    st: PrintState,
) -> Option<PrintState> where Op: Printable + Teachable<N>, N: Number
    decreases i, 0nat, 0nat,
{
    if 0 <= value < i && 0 <= body < i {
        let s = with_name(st, 'f').write("lib "@ + name + " ="@);
        match block::<Op, N>(e, value, s) {
            None => None,
            Some(t) => match t.line() {
                None => None,
                Some(u) => match block::<Op, N>(e, body, u.write("in"@)) {
                    None => None,
                    Some(v) => Some(PrintState { bindings: st.bindings, ..v }),
                },
            },
        }
    } else {
        None
    }
}

/// The state after the first `k` arguments of the node at `i`.
pub open spec fn args_printed<Op, N>(
    e: Seq<NodeView<Op>>,
    i: int,
    k: nat,
    sep: Seq<char>,
    broken: bool,
    context: Option<Precedence>,
    st: PrintState,
) -> Option<PrintState> where Op: Printable + Teachable<N>, N: Number
    decreases i, 0nat, k,
{
    if k == 0 {
        Some(st)
    } else {
        match args_printed::<Op, N>(e, i, (k - 1) as nat, sep, broken, context, st) {
            None => None,
            Some(s) => {
                let arg = e[i].args[k - 1] as int;
                match if k == 1 {
                    Some(s)
                } else if broken {
                    s.write(sep).line()
                } else {
                    Some(s.write(sep))
                } {
                    None => None,
                    Some(t) => if arg < i {
                        match context {
                            Some(p) => in_context::<Op, N>(e, arg, p, t),
                            None => printed::<Op, N>(e, arg, t),
                        }
                    } else {
                        None
                    },
                }
            },
        }
    }
}

/// The state after all arguments of the node at `i`.
pub open spec fn all_args<Op, N>(
    e: Seq<NodeView<Op>>,
    i: int,
    lay: LayoutView,
    st: PrintState,
) -> Option<PrintState> where Op: Printable + Teachable<N>, N: Number
    decreases i, 0nat, e[i].args.len() + 1,
{
    let n = e[i].args.len();
    match lay.breaks {
        Breaks::Never => args_printed::<Op, N>(e, i, n, lay.sep, false, lay.context, st),
        Breaks::Always => args_printed::<Op, N>(e, i, n, lay.sep, true, lay.context, st),
        Breaks::WhenLong => match args_printed::<Op, N>(
            e,
            i,
            n,
            lay.sep,
            false,
            lay.context,
            PrintState { out: Seq::empty(), ..st },
        ) {
            None => None,
            Some(s) => if too_long(s.out) {
                args_printed::<Op, N>(
                    e,
                    i,
                    n,
                    lay.sep,
                    true,
                    lay.context,
                    PrintState { next_id: s.next_id, ..st },
                )
            } else {
                Some(PrintState { out: st.out + s.out, ..s })
            },
        },
    }
}

/// The state after a piece of the node at `i`.
pub open spec fn piece_printed<Op, N>(
    e: Seq<NodeView<Op>>,
    i: int,
    piece: PieceView,
    st: PrintState,
) -> Option<PrintState> where Op: Printable + Teachable<N>, N: Number
    decreases i, 0nat, 0nat,
{
    match piece {
        PieceView::Text(text) => Some(st.write(text)),
        PieceView::Line => st.line(),
        PieceView::Indent => if st.indentation < usize::MAX {
            Some(PrintState { indentation: st.indentation + 1, ..st })
        } else {
            None
        },
        PieceView::Dedent => if st.indentation > 0 {
            Some(PrintState { indentation: (st.indentation - 1) as nat, ..st })
        } else {
            None
        },
        PieceView::Arg(j, context) => if j < e[i].args.len() && e[i].args[j as int] < i {
            match context {
                Some(p) => in_context::<Op, N>(e, e[i].args[j as int] as int, p, st),
                None => printed::<Op, N>(e, e[i].args[j as int] as int, st),
            }
        } else {
            None
        },
    }
}

/// The state after the first `k` pieces of the node at `i`.
pub open spec fn pieces_printed<Op, N>(
    e: Seq<NodeView<Op>>,
    i: int,
    pieces: Seq<PieceView>,
    k: nat,
    st: PrintState,
) -> Option<PrintState> where Op: Printable + Teachable<N>, N: Number
    decreases i, 0nat, k,
{
    if k == 0 {
        Some(st)
    } else {
        match pieces_printed::<Op, N>(e, i, pieces, (k - 1) as nat, st) {
            None => None,
            Some(s) => piece_printed::<Op, N>(e, i, pieces[k - 1], s),
        }
    }
}

/// The state after an operation is printed by its layout.
pub open spec fn laid_out<Op, N>(
    e: Seq<NodeView<Op>>,
    i: int,
    lay: LayoutView,
    st: PrintState,
) -> Option<PrintState> where Op: Printable + Teachable<N>, N: Number
    decreases i, 0nat, e[i].args.len() + lay.pieces.len() + 2,
{
    match pieces_printed::<Op, N>(e, i, lay.pieces, lay.pieces.len(), st.write(lay.before)) {
        None => None,
        Some(s) => if lay.args {
            let inner = if lay.indent {
                PrintState { indentation: s.indentation + 1, ..s }
            } else {
                s
            };
            if inner.indentation > usize::MAX {
                None
            } else {
                match all_args::<Op, N>(e, i, lay, inner) {
                    None => None,
                    Some(t) => Some(
                        (PrintState { indentation: st.indentation, ..t }).write(lay.after),
                    ),
                }
            }
        } else {
            Some((PrintState { indentation: st.indentation, ..s }).write(lay.after))
        },
    }
}

/// The state of a printer and its numbers.
pub open spec fn state(p: Printer, m: ExprMemoizer) -> PrintState {
    PrintState {
        out: p.writer@,
        precedence: p.ctx_precedence,
        bindings: texts(p.bindings@),
        indentation: p.indentation as nat,
        memo: m.s_memo(),
        next_id: m.s_next_id() as nat,
    }
}

/// Whether printing has left everything as it was but the text and the
/// numbers.
pub open spec fn kept(p: Printer, m: ExprMemoizer, q: Printer, n: ExprMemoizer) -> bool {
    kept_but_depth(p, m, q, n) && q.indentation == p.indentation
}

/// The same but for the indentation.
pub open spec fn kept_but_depth(
    p: Printer,
    m: ExprMemoizer,
    q: Printer,
    n: ExprMemoizer,
) -> bool {
    &&& q.ctx_precedence == p.ctx_precedence
    &&& texts(q.bindings@) == texts(p.bindings@)
    &&& q.backup_writer@ == p.backup_writer@
    &&& n.s_wf()
    &&& m.s_checkpoints().is_prefix_of(n.s_checkpoints())
}

/// Moves to the arguments of a construct: they stand before its node.
proof fn lemma_parts_before<Op, N>(e: Seq<NodeView<Op>>, i: int) where
    Op: Teachable<N>,
    N: Number,

    requires
        points_back(e, i),
    ensures
        match binding_of::<Op, usize, N>(e[i]) {
            Some(BindingExpr::Lambda(body)) => body < i,
            Some(BindingExpr::Apply(fun, arg)) => fun < i && arg < i,
            Some(BindingExpr::Lib(_, value, body, _, _, _)) => value < i && body < i,
            _ => true,
        },
{
    law_binding_parts_are_args::<Op, usize, N>(e[i]);
    match binding_of::<Op, usize, N>(e[i]) {
        Some(b) => {
            let parts = parts_of(b);
            assert forall|j: int| 0 <= j < parts.len() implies (#[trigger] parts[j]) < i by {
                assert(e[i].args[j] < i);
            }
            assert(parts.len() > 0 ==> parts[0] < i);
            assert(parts.len() > 1 ==> parts[1] < i);
        },
        None => {},
    }
}

impl Printer {
    /// Prints a number in brackets.
    fn write_tag(&mut self, id: usize)
        ensures
            crate::ast_node::pretty::wrote(*old(self), tag(id as nat), *final(self)),
    {
        self.write_char('[');
        self.write_str(decimal_text(id).as_str());
        self.write_char(']');
        assert(self.writer@ =~= old(self).writer@ + tag(id as nat));
    }

    /// Prints a node at the current precedence.
    pub fn print<Op, N>(
        &mut self,
        expr: &RecExpr<Op>,
        i: usize,
        memo: &mut ExprMemoizer,
    ) -> (r: fmt::Result) where Op: Printable + Teachable<N>, N: Number
        requires
            expr.wf(),
            i < expr@.len(),
            old(memo).s_wf(),
            printed::<Op, N>(expr@, i as int, state(*old(self), *old(memo))) is Some,
        ensures
            r is Ok,
            printed::<Op, N>(expr@, i as int, state(*old(self), *old(memo))) == Some(state(*final(self), *final(memo))),
            kept(*old(self), *old(memo), *final(self), *final(memo)),
        decreases i, 3nat, 0nat,
    {
        let old_prec: u8 = self.ctx_precedence;
        let new_prec: u8 = expr.nodes[i].operation.precedence();
        assert(expr@[i as int] == expr.nodes@[i as int]@);
        self.ctx_precedence = new_prec;
        let parens: bool = new_prec <= old_prec;
        if parens {
            self.write_char('(');
        }
        self.print_memoized(expr, i, memo)?;
        if parens {
            self.write_char(')');
        }
        self.ctx_precedence = old_prec;
        Ok(())
    }

    /// Prints a node at a given precedence, such as that of arguments in
    /// brackets.
    pub fn print_in_context<Op, N>(
        &mut self,
        expr: &RecExpr<Op>,
        i: usize,
        prec: Precedence,
        memo: &mut ExprMemoizer,
    ) -> (r: fmt::Result) where Op: Printable + Teachable<N>, N: Number
        requires
            expr.wf(),
            i < expr@.len(),
            old(memo).s_wf(),
            in_context::<Op, N>(expr@, i as int, prec, state(*old(self), *old(memo))) is Some,
        ensures
            r is Ok,
            in_context::<Op, N>(expr@, i as int, prec, state(*old(self), *old(memo))) == Some(state(*final(self), *final(memo))),
            kept(*old(self), *old(memo), *final(self), *final(memo)),
        decreases i, 4nat, 0nat,
    {
        let old_prec: u8 = self.ctx_precedence;
        self.ctx_precedence = prec;
        self.print(expr, i, memo)?;
        self.ctx_precedence = old_prec;
        Ok(())
    }

    /// Prints a node, or its number where it was printed before.
    fn print_memoized<Op, N>(
        &mut self,
        expr: &RecExpr<Op>,
        i: usize,
        memo: &mut ExprMemoizer,
    ) -> (r: fmt::Result) where Op: Printable + Teachable<N>, N: Number
        requires
            expr.wf(),
            i < expr@.len(),
            old(memo).s_wf(),
            memoized::<Op, N>(expr@, i as int, state(*old(self), *old(memo))) is Some,
        ensures
            r is Ok,
            memoized::<Op, N>(expr@, i as int, state(*old(self), *old(memo))) == Some(state(*final(self), *final(memo))),
            kept(*old(self), *old(memo), *final(self), *final(memo)),
        decreases i, 2nat, 0nat,
    {
        match memo.lookup(i) {
            Some(id) => {
                self.write_tag(id);
                Ok(())
            },
            None => {
                let id: usize = memo.register(i);
                let ghost before = self.writer@;
                self.write_tag(id);
                self.write_char(':');
                assert(self.writer@ =~= before + (tag(id as nat) + seq![':']));
                self.print_naked(expr, i, memo)
            },
        }
    }

    /// Prints what stands behind the number of a node.
    fn print_naked<Op, N>(
        &mut self,
        expr: &RecExpr<Op>,
        i: usize,
        memo: &mut ExprMemoizer,
    ) -> (r: fmt::Result) where Op: Printable + Teachable<N>, N: Number
        requires
            expr.wf(),
            i < expr@.len(),
            old(memo).s_wf(),
            naked::<Op, N>(expr@, i as int, state(*old(self), *old(memo))) is Some,
        ensures
            r is Ok,
            naked::<Op, N>(expr@, i as int, state(*old(self), *old(memo))) == Some(state(*final(self), *final(memo))),
            kept(*old(self), *old(memo), *final(self), *final(memo)),
        decreases i, 1nat, 0nat,
    {
        let node: &AstNode<Op> = &expr.nodes[i];
        assert(expr@[i as int] == node@);
        proof {
            assert(points_back(expr@, i as int));
            lemma_parts_before::<Op, N>(expr@, i as int);
        }
        match Op::as_binding_expr(node) {
            Some(BindingExpr::Lambda(body)) => {
                self.write_str("λ");
                self.print_abstraction(expr, *body, memo)
            },
            Some(BindingExpr::Apply(fun, arg)) => {
                self.print_in_context(expr, *fun, self.ctx_precedence - 1, memo)?;
                self.write_char(' ');
                self.print(expr, *arg, memo)
            },
            Some(BindingExpr::Var(index)) => {
                let n: usize = self.bindings.len();
                assert(texts(self.bindings@).len() == n);
                assert(texts(self.bindings@)[n - 1 - index.0] == self.bindings@[n - 1 - index.0]@);
                let name: String = self.bindings[n - 1 - index.0].clone();
                self.write_str(name.as_str());
                Ok(())
            },
            Some(BindingExpr::Lib(id, value, body, _, _, _)) => {
                let name: String = id.to_text();
                self.print_definition(expr, i, name.as_str(), *value, *body, memo)
            },
            Some(BindingExpr::LibVar(id)) => {
                self.write_str(id.to_text().as_str());
                Ok(())
            },
            None => {
                let lay: Layout = node.operation.layout(node.args.len());
                self.print_layout(expr, i, &lay, memo)
            },
        }
    }

    /// Prints a lambda with the given body, without the sign of the lambda.
    /// Directly nested lambdas are printed as one.
    fn print_abstraction<Op, N>(
        &mut self,
        expr: &RecExpr<Op>,
        i: usize,
        memo: &mut ExprMemoizer,
    ) -> (r: fmt::Result) where Op: Printable + Teachable<N>, N: Number
        requires
            expr.wf(),
            i < expr@.len(),
            old(memo).s_wf(),
            abstraction::<Op, N>(expr@, i as int, state(*old(self), *old(memo))) is Some,
        ensures
            r is Ok,
            abstraction::<Op, N>(expr@, i as int, state(*old(self), *old(memo))) == Some(state(*final(self), *final(memo))),
            kept(*old(self), *old(memo), *final(self), *final(memo)),
        decreases i, 5nat, 0nat,
    {
        let ghost start = state(*self, *memo);
        self.bind("x");
        proof {
            reveal_strlit("x");
            assert("x"@ =~= seq!['x']);
        }
        let n: usize = self.bindings.len();
        assert(texts(self.bindings@).len() == n);
        assert(texts(self.bindings@)[n - 1] == self.bindings@[n - 1]@);
        let name: String = self.bindings[n - 1].clone();
        self.write_str(name.as_str());
        self.write_char(' ');
        let ghost s = with_name(start, 'x');
        assert(self.writer@ =~= start.out + (s.bindings.last() + seq![' ']));
        assert(expr@[i as int] == expr.nodes@[i as int]@);
        proof {
            assert(points_back(expr@, i as int));
            lemma_parts_before::<Op, N>(expr@, i as int);
        }
        match Op::as_binding_expr(&expr.nodes[i]) {
            Some(BindingExpr::Lambda(body)) => {
                self.print_abstraction(expr, *body, memo)?;
            },
            _ => {
                self.write_str("-> ");
                self.print_in_context(expr, i, 0, memo)?;
            },
        }
        self.unbind();
        assert(texts(self.bindings@) =~= start.bindings);
        Ok(())
    }

    /// Begins a line one level further in and prints a node there.
    fn print_block<Op, N>(
        &mut self,
        expr: &RecExpr<Op>,
        i: usize,
        memo: &mut ExprMemoizer,
    ) -> (r: fmt::Result) where Op: Printable + Teachable<N>, N: Number
        requires
            expr.wf(),
            i < expr@.len(),
            old(memo).s_wf(),
            block::<Op, N>(expr@, i as int, state(*old(self), *old(memo))) is Some,
        ensures
            r is Ok,
            block::<Op, N>(expr@, i as int, state(*old(self), *old(memo))) == Some(state(*final(self), *final(memo))),
            kept(*old(self), *old(memo), *final(self), *final(memo)),
        decreases i, 6nat, 0nat,
    {
        let depth: usize = self.indentation;
        self.indentation = depth + 1;
        self.new_line()?;
        self.print_in_context(expr, i, 0, memo)?;
        self.indentation = depth;
        Ok(())
    }

    /// Prints the definition of a library function.
    fn print_definition<Op, N>(
        &mut self,
        expr: &RecExpr<Op>,
        i: usize,
        name: &str,
        value: usize,
        body: usize,
        memo: &mut ExprMemoizer,
    ) -> (r: fmt::Result) where Op: Printable + Teachable<N>, N: Number
        requires
            expr.wf(),
            i < expr@.len(),
            old(memo).s_wf(),
            value < i,
            body < i,
            definition::<Op, N>(expr@, i as int, name@, value as int, body as int, state(*old(self), *old(memo))) is Some,
        ensures
            r is Ok,
            definition::<Op, N>(expr@, i as int, name@, value as int, body as int, state(*old(self), *old(memo))) == Some(state(*final(self), *final(memo))),
            kept(*old(self), *old(memo), *final(self), *final(memo)),
        decreases i, 0nat, 0nat,
    {
        let ghost start = state(*self, *memo);
        self.bind("f");
        proof {
            reveal_strlit("f");
            assert("f"@ =~= seq!['f']);
        }
        self.write_str("lib ");
        self.write_str(name);
        self.write_str(" =");
        assert(self.writer@ =~= start.out + ("lib "@ + name@ + " ="@));
        self.print_block(expr, value, memo)?;
        self.new_line()?;
        self.write_str("in");
        self.print_block(expr, body, memo)?;
        self.unbind();
        assert(texts(self.bindings@) =~= start.bindings);
        Ok(())
    }

    /// Prints the arguments of a node.
    fn print_args<Op, N>(
        &mut self,
        expr: &RecExpr<Op>,
        i: usize,
        sep: &str,
        broken: bool,
        context: Option<Precedence>,
        memo: &mut ExprMemoizer,
    ) -> (r: fmt::Result) where Op: Printable + Teachable<N>, N: Number
        requires
            expr.wf(),
            i < expr@.len(),
            old(memo).s_wf(),
            args_printed::<Op, N>(expr@, i as int, expr@[i as int].args.len(), sep@, broken, context, state(*old(self), *old(memo))) is Some,
        ensures
            r is Ok,
            args_printed::<Op, N>(expr@, i as int, expr@[i as int].args.len(), sep@, broken, context, state(*old(self), *old(memo))) == Some(state(*final(self), *final(memo))),
            kept(*old(self), *old(memo), *final(self), *final(memo)),
        decreases i, 0nat, expr@[i as int].args.len(),
    {
        let ghost start = state(*self, *memo);
        let ghost e = expr@;
        let n: usize = expr.nodes[i].args.len();
        assert(e[i as int] == expr.nodes@[i as int]@);
        assert(points_back(e, i as int));
        for k in 0..n
            invariant
                expr.wf(),
                e == expr@,
                i < e.len(),
                e[i as int] == expr.nodes@[i as int]@,
                n == e[i as int].args.len(),
                points_back(e, i as int),
                memo.s_wf(),
                start == state(*old(self), *old(memo)),
                args_printed::<Op, N>(e, i as int, n as nat, sep@, broken, context, start) is Some,
                args_printed::<Op, N>(e, i as int, k as nat, sep@, broken, context, start) == Some(
                    state(*self, *memo),
                ),
                kept(*old(self), *old(memo), *self, *memo),
        {
            let arg: usize = expr.nodes[i].args[k];
            assert(e[i as int].args[k as int] == arg);
            proof {
                lemma_args_some::<Op, N>(
                    e,
                    i as int,
                    (k + 1) as nat,
                    n as nat,
                    sep@,
                    broken,
                    context,
                    start,
                );
            }
            if k > 0 {
                self.write_str(sep);
                if broken {
                    self.new_line()?;
                }
            }
            match context {
                Some(p) => {
                    self.print_in_context(expr, arg, p, memo)?;
                },
                None => {
                    self.print(expr, arg, memo)?;
                },
            }
        }
        Ok(())
    }

    /// Prints the arguments of a node by its layout.
    fn print_all_args<Op, N>(
        &mut self,
        expr: &RecExpr<Op>,
        i: usize,
        lay: &Layout,
        memo: &mut ExprMemoizer,
    ) -> (r: fmt::Result) where Op: Printable + Teachable<N>, N: Number
        requires
            expr.wf(),
            i < expr@.len(),
            old(memo).s_wf(),
            all_args::<Op, N>(expr@, i as int, lay@, state(*old(self), *old(memo))) is Some,
        ensures
            r is Ok,
            all_args::<Op, N>(expr@, i as int, lay@, state(*old(self), *old(memo))) == Some(state(*final(self), *final(memo))),
            kept(*old(self), *old(memo), *final(self), *final(memo)),
        decreases i, 0nat, expr@[i as int].args.len() + 1,
    {
        match lay.breaks {
            Breaks::Never => self.print_args(
                expr,
                i,
                lay.sep.as_str(),
                false,
                lay.context,
                memo,
            ),
            Breaks::Always => self.print_args(
                expr,
                i,
                lay.sep.as_str(),
                true,
                lay.context,
                memo,
            ),
            Breaks::WhenLong => {
                let ghost before = *self;
                let ghost numbers = *memo;
                let mark: usize = memo.checkpoint();
                let ghost noted = memo.s_checkpoints();
                let mut aside: String = String::new();
                core::mem::swap(&mut aside, &mut self.backup_writer);
                self.swap_writer();
                assert(self.writer@ =~= Seq::<char>::empty());
                self.print_args(expr, i, lay.sep.as_str(), false, lay.context, memo)?;
                self.swap_writer();
                core::mem::swap(&mut aside, &mut self.backup_writer);
                if crate::ast_node::pretty::is_too_long(aside.as_str()) {
                    assert(noted == memo.s_checkpoints().subrange(0, noted.len() as int));
                    assert(memo.s_checkpoints()[mark as int] == noted[mark as int]);
                    memo.restore(mark);
                    assert(memo.s_checkpoints() =~= numbers.s_checkpoints()) by {
                        assert forall|j: int| 0 <= j < mark implies memo.s_checkpoints()[j]
                            == numbers.s_checkpoints()[j] by {
                            assert(memo.s_checkpoints()[j] == noted[j]);
                        }
                    }
                    self.print_args(expr, i, lay.sep.as_str(), true, lay.context, memo)
                } else {
                    self.write_str(aside.as_str());
                    Ok(())
                }
            },
        }
    }

    /// Prints an operation by its layout.
    fn print_layout<Op, N>(
        &mut self,
        expr: &RecExpr<Op>,
        i: usize,
        lay: &Layout,
        memo: &mut ExprMemoizer,
    ) -> (r: fmt::Result) where Op: Printable + Teachable<N>, N: Number
        requires
            expr.wf(),
            i < expr@.len(),
            old(memo).s_wf(),
            laid_out::<Op, N>(expr@, i as int, lay@, state(*old(self), *old(memo))) is Some,
        ensures
            r is Ok,
            laid_out::<Op, N>(expr@, i as int, lay@, state(*old(self), *old(memo))) == Some(state(*final(self), *final(memo))),
            kept(*old(self), *old(memo), *final(self), *final(memo)),
        decreases i, 0nat, expr@[i as int].args.len() + lay@.pieces.len() + 2,
    {
        let depth: usize = self.indentation;
        self.write_str(lay.before.as_str());
        self.print_pieces(expr, i, &lay.pieces, memo)?;
        if lay.args {
            if lay.indent {
                self.indentation = self.indentation + 1;
            }
            self.print_all_args(expr, i, lay, memo)?;
        }
        self.indentation = depth;
        self.write_str(lay.after.as_str());
        Ok(())
    }

    /// Prints pieces in turn.
    fn print_pieces<Op, N>(
        &mut self,
        expr: &RecExpr<Op>,
        i: usize,
        pieces: &Vec<Piece>,
        memo: &mut ExprMemoizer,
    ) -> (r: fmt::Result) where Op: Printable + Teachable<N>, N: Number
        requires
            expr.wf(),
            i < expr@.len(),
            old(memo).s_wf(),
            pieces_printed::<Op, N>(expr@, i as int, piece_views(pieces@), pieces@.len(), state(*old(self), *old(memo))) is Some,
        ensures
            r is Ok,
            pieces_printed::<Op, N>(expr@, i as int, piece_views(pieces@), pieces@.len(), state(*old(self), *old(memo))) == Some(state(*final(self), *final(memo))),
            kept_but_depth(*old(self), *old(memo), *final(self), *final(memo)),
        decreases i, 0nat, pieces@.len(),
    {
        let ghost start = state(*self, *memo);
        let ghost e = expr@;
        let ghost all = piece_views(pieces@);
        let n: usize = pieces.len();
        assert(e[i as int] == expr.nodes@[i as int]@);
        for k in 0..n
            invariant
                expr.wf(),
                e == expr@,
                i < e.len(),
                e[i as int] == expr.nodes@[i as int]@,
                all == piece_views(pieces@),
                n == pieces@.len(),
                memo.s_wf(),
                start == state(*old(self), *old(memo)),
                pieces_printed::<Op, N>(e, i as int, all, n as nat, start) is Some,
                pieces_printed::<Op, N>(e, i as int, all, k as nat, start) == Some(
                    state(*self, *memo),
                ),
                kept_but_depth(*old(self), *old(memo), *self, *memo),
        {
            proof {
                lemma_pieces_some::<Op, N>(e, i as int, all, (k + 1) as nat, n as nat, start);
            }
            assert(all[k as int] == pieces@[k as int]@);
            assert(piece_printed::<Op, N>(e, i as int, all[k as int], state(*self, *memo)) is Some);
            match &pieces[k] {
                Piece::Text(text) => {
                    self.write_str(text.as_str());
                },
                Piece::Line => {
                    self.new_line()?;
                },
                Piece::Indent => {
                    self.indentation = self.indentation + 1;
                },
                Piece::Dedent => {
                    self.indentation = self.indentation - 1;
                },
                Piece::Arg(j, context) => {
                    let arg: usize = expr.nodes[i].args[*j];
                    assert(e[i as int].args[*j as int] == arg);
                    match context {
                        Some(p) => {
                            self.print_in_context(expr, arg, *p, memo)?;
                        },
                        None => {
                            self.print(expr, arg, memo)?;
                        },
                    }
                },
            }
        }
        Ok(())
    }
}

proof fn lemma_pieces_some<Op, N>(
    e: Seq<NodeView<Op>>,
    i: int,
    pieces: Seq<PieceView>,
    k: nat,
    n: nat,
    st: PrintState,
) where Op: Printable + Teachable<N>, N: Number
    requires
        k <= n,
        pieces_printed::<Op, N>(e, i, pieces, n, st) is Some,
    ensures
        pieces_printed::<Op, N>(e, i, pieces, k, st) is Some,
    decreases n - k,
{
    if k < n {
        lemma_pieces_some::<Op, N>(e, i, pieces, (k + 1) as nat, n, st);
    }
}

proof fn lemma_args_some<Op, N>(
    e: Seq<NodeView<Op>>,
    i: int,
    k: nat,
    n: nat,
    sep: Seq<char>,
    broken: bool,
    context: Option<Precedence>,
    st: PrintState,
) where Op: Printable + Teachable<N>, N: Number
    requires
        k <= n,
        args_printed::<Op, N>(e, i, n, sep, broken, context, st) is Some,
    ensures
        args_printed::<Op, N>(e, i, k, sep, broken, context, st) is Some,
    decreases n - k,
{
    if k < n {
        lemma_args_some::<Op, N>(e, i, (k + 1) as nat, n, sep, broken, context, st);
    }
}

/// The precedence of a whole expression that is pretty-printed.
pub const PRETTY_PRECEDENCE: Precedence = 110;

/// The state before anything is printed.
pub open spec fn nothing_printed() -> PrintState {
    PrintState {
        out: Seq::empty(),
        precedence: 0,
        bindings: Seq::empty(),
        indentation: 0,
        memo: Map::empty(),
        next_id: 0,
    }
}

/// The state after a whole expression is pretty-printed.
pub open spec fn pretty_state<Op, N>(e: Seq<NodeView<Op>>) -> Option<PrintState> where
    Op: Printable + Teachable<N>,
    N: Number,
 {
    in_context::<Op, N>(e, e.len() - 1, PRETTY_PRECEDENCE, nothing_printed())
}

/// An expression that can be pretty-printed.
#[derive(Debug)]
pub struct Pretty<Op> {
    expr: RecExpr<Op>,
}

impl<Op> View for Pretty<Op> {
    type V = Seq<NodeView<Op>>;

    closed spec fn view(&self) -> Seq<NodeView<Op>> {
        self.expr@
    }
}

impl<Op: Duplicate> Pretty<Op> {
    /// Whether the nodes are an expression.
    pub closed spec fn wf(&self) -> bool {
        self.expr.wf() && self.expr@.len() > 0
    }

    /// The expression, its shared parts once.
    pub fn new(expr: Arc<Expr<Op>>) -> (r: Self)
        ensures
            r.wf(),
            root_tree(r@) == tree(*expr),
    {
        Pretty { expr: RecExpr::from(&*expr) }
    }

    /// The expression as a text.
    pub fn to_text<N>(&self) -> (r: String) where Op: Printable + Teachable<N>, N: Number
        requires
            self.wf(),
            pretty_state::<Op, N>(self@) is Some,
        ensures
            r@ == pretty_state::<Op, N>(self@)->Some_0.out,
    {
        let mut printer: Printer = Printer::new(String::new());
        let mut memo: ExprMemoizer = ExprMemoizer::new();
        assert(state(printer, memo) =~= nothing_printed());
        let root: usize = self.expr.len() - 1;
        let _printed: fmt::Result = printer.print_in_context::<Op, N>(
            &self.expr,
            root,
            PRETTY_PRECEDENCE,
            &mut memo,
        );
        printer.writer
    }
}

} // verus!
