//! What a printed expression reads: names, parentheses and numbers.
use crate::ast_node::pretty::{line_break, Precedence};
use crate::ast_node::print_expr::{
    abstraction, all_args, args_printed, block, definition, in_context, laid_out, memoized, naked,
    piece_printed, pieces_printed, printed, tag, Breaks, LayoutView, PieceView, PrintState,
    Printable,
};
use crate::ast_node::NodeView;
use crate::learn::LibId;
use crate::number::Number;
use crate::teachable::{binding_of, BindingExpr, DeBruijnIndex, Teachable};
use crate::text::{decimal, law_decimal_reads_back};
use vstd::prelude::*;

verus! {

/// The state with a text in front of what was printed.
spec fn lifted(o: Seq<char>, st: PrintState) -> PrintState {
    PrintState { out: o + st.out, ..st }
}

spec fn all_lifted(o: Seq<char>, r: Option<PrintState>) -> Option<PrintState> {
    match r {
        None => None,
        Some(s) => Some(lifted(o, s)),
    }
}

/// Whether the numbers of `a` are also those of `b`.
pub open spec fn within(a: Map<usize, usize>, b: Map<usize, usize>) -> bool {
    forall|k: usize| #[trigger] a.dom().contains(k) ==> b.dom().contains(k) && b[k] == a[k]
}

/// Whether the numbers of the nodes have stayed, with others at most.
pub open spec fn numbers_stay(st: PrintState, s: PrintState) -> bool {
    st.next_id <= s.next_id && within(st.memo, s.memo)
}

spec fn numbers_kept(st: PrintState, r: Option<PrintState>) -> bool {
    match r {
        None => true,
        Some(s) => numbers_stay(st, s),
    }
}

proof fn lemma_write(o: Seq<char>, st: PrintState, text: Seq<char>)
    ensures
        lifted(o, st).write(text) == lifted(o, st.write(text)),
{
    assert(o + st.out + text =~= o + (st.out + text));
}

proof fn lemma_line(o: Seq<char>, st: PrintState)
    ensures
        lifted(o, st).line() == all_lifted(o, st.line()),
        numbers_kept(st, st.line()),
{
    lemma_write(o, st, line_break(st.indentation as usize));
}

proof fn lemma_printed<Op, N>(e: Seq<NodeView<Op>>, i: int, st: PrintState, o: Seq<char>) where
    Op: Printable + Teachable<N>,
    N: Number,

    ensures
        printed::<Op, N>(e, i, lifted(o, st)) == all_lifted(o, printed::<Op, N>(e, i, st)),
        numbers_kept(st, printed::<Op, N>(e, i, st)),
    decreases i, 3nat, 0nat,
{
    let own = e[i].operation.s_precedence();
    let start = PrintState { precedence: own, ..st };
    lemma_write(o, start, seq!['(']);
    let from = if own <= st.precedence {
        start.write(seq!['('])
    } else {
        start
    };
    lemma_memoized::<Op, N>(e, i, from, o);
    if let Some(s) = memoized::<Op, N>(e, i, from) {
        lemma_write(o, s, seq![')']);
    }
}

proof fn lemma_in_context<Op, N>(
    e: Seq<NodeView<Op>>,
    i: int,
    precedence: Precedence,
    st: PrintState,
    o: Seq<char>,
) where Op: Printable + Teachable<N>, N: Number
    ensures
        in_context::<Op, N>(e, i, precedence, lifted(o, st)) == all_lifted(
            o,
            in_context::<Op, N>(e, i, precedence, st),
        ),
        numbers_kept(st, in_context::<Op, N>(e, i, precedence, st)),
    decreases i, 4nat, 0nat,
{
    lemma_printed::<Op, N>(e, i, PrintState { precedence, ..st }, o);
}

proof fn lemma_memoized<Op, N>(e: Seq<NodeView<Op>>, i: int, st: PrintState, o: Seq<char>) where
    Op: Printable + Teachable<N>,
    N: Number,

    ensures
        memoized::<Op, N>(e, i, lifted(o, st)) == all_lifted(o, memoized::<Op, N>(e, i, st)),
        numbers_kept(st, memoized::<Op, N>(e, i, st)),
    decreases i, 2nat, 0nat,
{
    if st.memo.dom().contains(i as usize) {
        lemma_write(o, st, tag(st.memo[i as usize] as nat));
    } else if st.next_id < usize::MAX {
        let id = st.next_id;
        let noted = PrintState {
            memo: st.memo.insert(i as usize, id as usize),
            next_id: id + 1,
            ..st
        };
        lemma_write(o, noted, tag(id) + seq![':']);
        lemma_naked::<Op, N>(e, i, noted.write(tag(id) + seq![':']), o);
        if let Some(s) = naked::<Op, N>(e, i, noted.write(tag(id) + seq![':'])) {
            assert(within(st.memo, noted.memo));
            lemma_within(st.memo, noted.memo, s.memo);
        }
    }
}

proof fn lemma_naked<Op, N>(e: Seq<NodeView<Op>>, i: int, st: PrintState, o: Seq<char>) where
    Op: Printable + Teachable<N>,
    N: Number,

    ensures
        naked::<Op, N>(e, i, lifted(o, st)) == all_lifted(o, naked::<Op, N>(e, i, st)),
        numbers_kept(st, naked::<Op, N>(e, i, st)),
    decreases i, 1nat, 0nat,
{
    match binding_of::<Op, usize, N>(e[i]) {
        Some(BindingExpr::Lambda(body)) => {
            if body < i {
                lemma_write(o, st, "λ"@);
                lemma_abstraction::<Op, N>(e, body as int, st.write("λ"@), o);
            }
        },
        Some(BindingExpr::Apply(fun, arg)) => {
            if fun < i && arg < i && st.precedence > 0 {
                let p = (st.precedence - 1) as u8;
                lemma_in_context::<Op, N>(e, fun as int, p, st, o);
                if let Some(s) = in_context::<Op, N>(e, fun as int, p, st) {
                    lemma_write(o, s, seq![' ']);
                    lemma_printed::<Op, N>(e, arg as int, s.write(seq![' ']), o);
                    lemma_numbers_twice(st, s, printed::<Op, N>(e, arg as int, s.write(seq![' '])));
                }
            }
        },
        Some(BindingExpr::Var(index)) => {
            if index.0 < st.bindings.len() {
                lemma_write(o, st, st.bindings[st.bindings.len() - 1 - index.0]);
            }
        },
        Some(BindingExpr::Lib(id, value, body, _, _, _)) => {
            if value < i && body < i {
                lemma_definition::<Op, N>(e, i, id.shown(), value as int, body as int, st, o);
            }
        },
        Some(BindingExpr::LibVar(id)) => {
            lemma_write(o, st, id.shown());
        },
        None => {
            lemma_laid_out::<Op, N>(e, i, e[i].operation.s_layout(e[i].args.len()), st, o);
        },
    }
}

proof fn lemma_within(a: Map<usize, usize>, b: Map<usize, usize>, c: Map<usize, usize>)
    requires
        within(a, b),
        within(b, c),
    ensures
        within(a, c),
{
}

proof fn lemma_numbers_twice(a: PrintState, b: PrintState, r: Option<PrintState>)
    requires
        numbers_stay(a, b),
        numbers_kept(b, r),
    ensures
        numbers_kept(a, r),
{
    if let Some(c) = r {
        lemma_within(a.memo, b.memo, c.memo);
    }
}

proof fn lemma_abstraction<Op, N>(e: Seq<NodeView<Op>>, i: int, st: PrintState, o: Seq<char>) where
    Op: Printable + Teachable<N>,
    N: Number,

    ensures
        abstraction::<Op, N>(e, i, lifted(o, st)) == all_lifted(o, abstraction::<Op, N>(e, i, st)),
        numbers_kept(st, abstraction::<Op, N>(e, i, st)),
    decreases i, 5nat, 0nat,
{
    let s = crate::ast_node::print_expr::with_name(st, 'x');
    assert(crate::ast_node::print_expr::with_name(lifted(o, st), 'x') == lifted(o, s));
    let name = s.bindings.last() + seq![' '];
    lemma_write(o, s, name);
    match binding_of::<Op, usize, N>(e[i]) {
        Some(BindingExpr::Lambda(body)) => {
            if body < i {
                lemma_abstraction::<Op, N>(e, body as int, s.write(name), o);
            }
        },
        _ => {
            lemma_write(o, s.write(name), "-> "@);
            lemma_in_context::<Op, N>(e, i, 0, s.write(name).write("-> "@), o);
        },
    }
}

proof fn lemma_block<Op, N>(e: Seq<NodeView<Op>>, i: int, st: PrintState, o: Seq<char>) where
    Op: Printable + Teachable<N>,
    N: Number,

    ensures
        block::<Op, N>(e, i, lifted(o, st)) == all_lifted(o, block::<Op, N>(e, i, st)),
        numbers_kept(st, block::<Op, N>(e, i, st)),
    decreases i, 6nat, 0nat,
{
    let deeper = PrintState { indentation: st.indentation + 1, ..st };
    assert(lifted(o, deeper) == (PrintState { indentation: st.indentation + 1, ..lifted(o, st) }));
    lemma_line(o, deeper);
    if let Some(s) = deeper.line() {
        lemma_in_context::<Op, N>(e, i, 0, s, o);
    }
}

proof fn lemma_definition<Op, N>(
    e: Seq<NodeView<Op>>,
    i: int,
    name: Seq<char>,
    value: int,
    body: int,
    st: PrintState,
    o: Seq<char>,
) where Op: Printable + Teachable<N>, N: Number
    ensures
        definition::<Op, N>(e, i, name, value, body, lifted(o, st)) == all_lifted(
            o,
            definition::<Op, N>(e, i, name, value, body, st),
        ),
        numbers_kept(st, definition::<Op, N>(e, i, name, value, body, st)),
    decreases i, 0nat, 0nat,
{
    if 0 <= value < i && 0 <= body < i {
        let bound = crate::ast_node::print_expr::with_name(st, 'f');
        assert(crate::ast_node::print_expr::with_name(lifted(o, st), 'f') == lifted(o, bound));
        let head = "lib "@ + name + " ="@;
        lemma_write(o, bound, head);
        let s = bound.write(head);
        lemma_block::<Op, N>(e, value, s, o);
        if let Some(t) = block::<Op, N>(e, value, s) {
            lemma_line(o, t);
            if let Some(u) = t.line() {
                lemma_write(o, u, "in"@);
                lemma_block::<Op, N>(e, body, u.write("in"@), o);
                lemma_numbers_twice(s, u, block::<Op, N>(e, body, u.write("in"@)));
            }
        }
    }
}

proof fn lemma_args_printed<Op, N>(
    e: Seq<NodeView<Op>>,
    i: int,
    k: nat,
    sep: Seq<char>,
    broken: bool,
    context: Option<Precedence>,
    st: PrintState,
    o: Seq<char>,
) where Op: Printable + Teachable<N>, N: Number
    ensures
        args_printed::<Op, N>(e, i, k, sep, broken, context, lifted(o, st)) == all_lifted(
            o,
            args_printed::<Op, N>(e, i, k, sep, broken, context, st),
        ),
        numbers_kept(st, args_printed::<Op, N>(e, i, k, sep, broken, context, st)),
    decreases i, 0nat, k,
{
    if k > 0 {
        lemma_args_printed::<Op, N>(e, i, (k - 1) as nat, sep, broken, context, st, o);
        if let Some(s) = args_printed::<Op, N>(e, i, (k - 1) as nat, sep, broken, context, st) {
            let arg = e[i].args[k - 1] as int;
            lemma_write(o, s, sep);
            lemma_line(o, s.write(sep));
            let from = if k == 1 {
                Some(s)
            } else if broken {
                s.write(sep).line()
            } else {
                Some(s.write(sep))
            };
            if let Some(t) = from {
                assert(numbers_stay(st, t));
                if arg < i {
                    match context {
                        Some(p) => {
                            lemma_in_context::<Op, N>(e, arg, p, t, o);
                            lemma_numbers_twice(st, t, in_context::<Op, N>(e, arg, p, t));
                        },
                        None => {
                            lemma_printed::<Op, N>(e, arg, t, o);
                            lemma_numbers_twice(st, t, printed::<Op, N>(e, arg, t));
                        },
                    }
                }
            }
        }
    }
}

proof fn lemma_all_args<Op, N>(
    e: Seq<NodeView<Op>>,
    i: int,
    lay: LayoutView,
    st: PrintState,
    o: Seq<char>,
) where Op: Printable + Teachable<N>, N: Number
    ensures
        all_args::<Op, N>(e, i, lay, lifted(o, st)) == all_lifted(
            o,
            all_args::<Op, N>(e, i, lay, st),
        ),
        numbers_kept(st, all_args::<Op, N>(e, i, lay, st)),
    decreases i, 0nat, e[i].args.len() + 1,
{
    let n = e[i].args.len();
    match lay.breaks {
        Breaks::Never => {
            lemma_args_printed::<Op, N>(e, i, n, lay.sep, false, lay.context, st, o);
        },
        Breaks::Always => {
            lemma_args_printed::<Op, N>(e, i, n, lay.sep, true, lay.context, st, o);
        },
        Breaks::WhenLong => {
            let fresh = PrintState { out: Seq::empty(), ..st };
            assert(fresh == (PrintState { out: Seq::empty(), ..lifted(o, st) }));
            lemma_args_printed::<Op, N>(e, i, n, lay.sep, false, lay.context, fresh, o);
            if let Some(s) = args_printed::<Op, N>(
                e,
                i,
                n,
                lay.sep,
                false,
                lay.context,
                fresh,
            ) {
                let again = PrintState { next_id: s.next_id, ..st };
                lemma_args_printed::<Op, N>(e, i, n, lay.sep, true, lay.context, again, o);
                assert(lifted(o, again) == (PrintState { next_id: s.next_id, ..lifted(o, st) }));
                assert(o + st.out + s.out =~= o + (st.out + s.out));
            }
        },
    }
}

proof fn lemma_piece_printed<Op, N>(
    e: Seq<NodeView<Op>>,
    i: int,
    piece: PieceView,
    st: PrintState,
    o: Seq<char>,
) where Op: Printable + Teachable<N>, N: Number
    ensures
        piece_printed::<Op, N>(e, i, piece, lifted(o, st)) == all_lifted(
            o,
            piece_printed::<Op, N>(e, i, piece, st),
        ),
        numbers_kept(st, piece_printed::<Op, N>(e, i, piece, st)),
    decreases i, 0nat, 0nat,
{
    match piece {
        PieceView::Text(text) => {
            lemma_write(o, st, text);
        },
        PieceView::Line => {
            lemma_line(o, st);
        },
        PieceView::Indent => {},
        PieceView::Dedent => {},
        PieceView::Arg(j, context) => {
            if j < e[i].args.len() && e[i].args[j as int] < i {
                match context {
                    Some(p) => {
                        lemma_in_context::<Op, N>(e, e[i].args[j as int] as int, p, st, o);
                    },
                    None => {
                        lemma_printed::<Op, N>(e, e[i].args[j as int] as int, st, o);
                    },
                }
            }
        },
    }
}

proof fn lemma_pieces_printed<Op, N>(
    e: Seq<NodeView<Op>>,
    i: int,
    pieces: Seq<PieceView>,
    k: nat,
    st: PrintState,
    o: Seq<char>,
) where Op: Printable + Teachable<N>, N: Number
    ensures
        pieces_printed::<Op, N>(e, i, pieces, k, lifted(o, st)) == all_lifted(
            o,
            pieces_printed::<Op, N>(e, i, pieces, k, st),
        ),
        numbers_kept(st, pieces_printed::<Op, N>(e, i, pieces, k, st)),
    decreases i, 0nat, k,
{
    if k > 0 {
        lemma_pieces_printed::<Op, N>(e, i, pieces, (k - 1) as nat, st, o);
        if let Some(s) = pieces_printed::<Op, N>(e, i, pieces, (k - 1) as nat, st) {
            lemma_piece_printed::<Op, N>(e, i, pieces[k - 1], s, o);
            lemma_numbers_twice(st, s, piece_printed::<Op, N>(e, i, pieces[k - 1], s));
        }
    }
}

#[verifier::rlimit(40)]
proof fn lemma_laid_out<Op, N>(
    e: Seq<NodeView<Op>>,
    i: int,
    lay: LayoutView,
    st: PrintState,
    o: Seq<char>,
) where Op: Printable + Teachable<N>, N: Number
    ensures
        laid_out::<Op, N>(e, i, lay, lifted(o, st)) == all_lifted(
            o,
            laid_out::<Op, N>(e, i, lay, st),
        ),
        numbers_kept(st, laid_out::<Op, N>(e, i, lay, st)),
    decreases i, 0nat, e[i].args.len() + lay.pieces.len() + 2,
{
    lemma_write(o, st, lay.before);
    let from = st.write(lay.before);
    let pieces = pieces_printed::<Op, N>(e, i, lay.pieces, lay.pieces.len(), from);
    lemma_pieces_printed::<Op, N>(e, i, lay.pieces, lay.pieces.len(), from, o);
    assert(numbers_kept(st, pieces));
    if let Some(s) = pieces {
        if lay.args {
            let inner = if lay.indent {
                PrintState { indentation: s.indentation + 1, ..s }
            } else {
                s
            };
            assert(lifted(o, inner) == if lay.indent {
                PrintState { indentation: s.indentation + 1, ..lifted(o, s) }
            } else {
                lifted(o, s)
            });
            if inner.indentation <= usize::MAX {
                let args = all_args::<Op, N>(e, i, lay, inner);
                lemma_all_args::<Op, N>(e, i, lay, inner, o);
                assert(numbers_stay(st, inner));
                lemma_numbers_twice(st, inner, args);
                if let Some(t) = args {
                    let end = PrintState { indentation: st.indentation, ..t };
                    lemma_write(o, end, lay.after);
                    assert(lifted(o, end) == (PrintState {
                        indentation: st.indentation,
                        ..lifted(o, t)
                    }));
                }
            }
        } else {
            let end = PrintState { indentation: st.indentation, ..s };
            lemma_write(o, end, lay.after);
            assert(lifted(o, end) == (PrintState { indentation: st.indentation, ..lifted(o, s) }));
        }
    }
}

/// A text in parentheses, or as it is.
pub open spec fn wrapped(text: Seq<char>, parens: bool) -> Seq<char> {
    if parens {
        seq!['('] + text + seq![')']
    } else {
        text
    }
}

/// The state after the node at `i` is printed at the beginning of a text, in a
/// context that asks for no parentheses.
pub open spec fn alone<Op, N>(e: Seq<NodeView<Op>>, i: int, st: PrintState) -> Option<
    PrintState,
> where Op: Printable + Teachable<N>, N: Number {
    memoized::<Op, N>(
        e,
        i,
        PrintState { out: Seq::empty(), precedence: e[i].operation.s_precedence(), ..st },
    )
}

proof fn lemma_alone<Op, N>(e: Seq<NodeView<Op>>, i: int, st: PrintState) where
    Op: Printable + Teachable<N>,
    N: Number,

    ensures
        match (alone::<Op, N>(e, i, st), printed::<Op, N>(e, i, st)) {
            (None, None) => true,
            (Some(a), Some(s)) => s == (PrintState {
                out: st.out + wrapped(a.out, e[i].operation.s_precedence() <= st.precedence),
                precedence: st.precedence,
                ..a
            }),
            _ => false,
        },
{
    let own = e[i].operation.s_precedence();
    let parens = own <= st.precedence;
    let base = PrintState { out: Seq::empty(), precedence: own, ..st };
    let o = if parens {
        st.out + seq!['(']
    } else {
        st.out
    };
    lemma_memoized::<Op, N>(e, i, base, o);
    assert(o + base.out =~= o);
    if let Some(a) = alone::<Op, N>(e, i, st) {
        assert(st.out + seq!['('] + a.out + seq![')'] =~= st.out + (seq!['('] + a.out + seq![')']));
    }
}

/// A node is put in parentheses where the precedence of the context is not
/// below its own, and the context changes nothing else of what is printed.
pub proof fn law_parentheses<Op, N>(
    e: Seq<NodeView<Op>>,
    i: int,
    st: PrintState,
    low: Precedence,
    high: Precedence,
) where Op: Printable + Teachable<N>, N: Number
    requires
        low < e[i].operation.s_precedence() <= high,
    ensures
        match (
            in_context::<Op, N>(e, i, low, st),
            in_context::<Op, N>(e, i, high, st),
        ) {
            (None, None) => true,
            (Some(a), Some(b)) => {
                &&& a.memo == b.memo && a.next_id == b.next_id
                &&& exists|text: Seq<char>|
                    a.out == #[trigger] (st.out + text) && b.out == st.out + seq!['('] + text + seq![
                        ')',
                    ]
            },
            _ => false,
        },
{
    let (p, q) = (PrintState { precedence: low, ..st }, PrintState { precedence: high, ..st });
    lemma_alone::<Op, N>(e, i, p);
    lemma_alone::<Op, N>(e, i, q);
    let own = e[i].operation.s_precedence();
    assert(alone::<Op, N>(e, i, p) == alone::<Op, N>(e, i, q));
    if let Some(a) = alone::<Op, N>(e, i, p) {
        let text = a.out;
        assert(st.out + (seq!['('] + text + seq![')']) =~= st.out + seq!['('] + text + seq![')']);
        assert(in_context::<Op, N>(e, i, low, st)->Some_0.out == st.out + text);
    }
}

// ---------------------------------------------------------------------------
// Variables
// ---------------------------------------------------------------------------

/// The variable with the index 0 is printed as the name that was bound last.
pub proof fn law_innermost_variable<Op, N>(e: Seq<NodeView<Op>>, i: int, st: PrintState) where
    Op: Printable + Teachable<N>,
    N: Number,

    requires
        binding_of::<Op, usize, N>(e[i]) == Some(BindingExpr::<usize, N>::Var(DeBruijnIndex(0))),
        st.bindings.len() > 0,
    ensures
        naked::<Op, N>(e, i, st) == Some(
            PrintState { out: st.out + st.bindings[st.bindings.len() - 1], ..st },
        ),
{
}

/// Under one more name, a variable with an index one larger is printed as
/// before.
pub proof fn law_outer_variable<Op, N>(
    e: Seq<NodeView<Op>>,
    i: int,
    f: Seq<NodeView<Op>>,
    j: int,
    k: usize,
    st: PrintState,
    name: Seq<char>,
) where Op: Printable + Teachable<N>, N: Number
    requires
        k < usize::MAX,
        binding_of::<Op, usize, N>(e[i]) == Some(BindingExpr::<usize, N>::Var(DeBruijnIndex(k))),
        binding_of::<Op, usize, N>(f[j]) == Some(
            BindingExpr::<usize, N>::Var(DeBruijnIndex((k + 1) as usize)),
        ),
    ensures
        match (
            naked::<Op, N>(e, i, st),
            naked::<Op, N>(f, j, PrintState { bindings: st.bindings.push(name), ..st }),
        ) {
            (None, None) => true,
            (Some(a), Some(b)) => b == (PrintState { bindings: st.bindings.push(name), ..a }),
            _ => false,
        },
        naked::<Op, N>(e, i, st) is Some <==> k < st.bindings.len(),
{
}

/// Whether each name in scope is a letter and the number of names before it.
pub open spec fn well_named(names: Seq<Seq<char>>) -> bool {
    forall|k: int|
        0 <= k < names.len() ==> {
            let name = #[trigger] names[k];
            name == seq!['x'] + decimal(k as nat) || name == seq!['f'] + decimal(k as nat)
        }
}

proof fn lemma_numbers_differ(a: nat, b: nat, c: char, d: char)
    requires
        a != b,
    ensures
        seq![c] + decimal(a) != seq![d] + decimal(b),
{
    law_decimal_reads_back(a);
    law_decimal_reads_back(b);
    if seq![c] + decimal(a) == seq![d] + decimal(b) {
        assert((seq![c] + decimal(a)).skip(1) =~= decimal(a));
        assert((seq![d] + decimal(b)).skip(1) =~= decimal(b));
    }
}

/// A lambda over its own variable introduces a name that is not in scope, and
/// prints it again as the body.
pub proof fn law_lambda_names_its_variable<Op, N>(
    e: Seq<NodeView<Op>>,
    i: int,
    body: usize,
    st: PrintState,
) where Op: Printable + Teachable<N>, N: Number
    requires
        body < i,
        binding_of::<Op, usize, N>(e[i]) == Some(BindingExpr::<usize, N>::Lambda(body)),
        binding_of::<Op, usize, N>(e[body as int]) == Some(
            BindingExpr::<usize, N>::Var(DeBruijnIndex(0)),
        ),
        !st.memo.dom().contains(body),
        st.next_id < usize::MAX,
        well_named(st.bindings),
    ensures
        naked::<Op, N>(e, i, st) is Some,
        exists|name: Seq<char>|
            !(#[trigger] st.bindings.contains(name)) && well_named(st.bindings.push(name))
                && naked::<Op, N>(e, i, st)->Some_0.out == st.out + "λ"@ + name + " -> "@ + wrapped(
                tag(st.next_id) + seq![':'] + name,
                e[body as int].operation.s_precedence() == 0,
            ),
        naked::<Op, N>(e, i, st)->Some_0.bindings == st.bindings,
{
    let name = seq!['x'] + decimal(st.bindings.len());
    let scope = st.bindings.push(name);
    let inner = PrintState {
        out: st.out + "λ"@ + (name + seq![' ']) + "-> "@,
        bindings: scope,
        precedence: 0,
        ..st
    };
    let own = e[body as int].operation.s_precedence();
    lemma_alone::<Op, N>(e, body as int, inner);
    let noted = PrintState {
        out: Seq::<char>::empty() + (tag(st.next_id) + seq![':']),
        precedence: own,
        memo: st.memo.insert(body, st.next_id as usize),
        next_id: st.next_id + 1,
        ..inner
    };
    law_innermost_variable::<Op, N>(e, body as int, noted);
    assert(noted.bindings[noted.bindings.len() - 1] == name);
    let text = tag(st.next_id) + seq![':'] + name;
    assert(alone::<Op, N>(e, body as int, inner) == naked::<Op, N>(e, body as int, noted));
    assert(alone::<Op, N>(e, body as int, inner)->Some_0.out =~= text);
    reveal_strlit(" -> ");
    reveal_strlit("-> ");
    assert(inner.out + wrapped(text, own == 0) =~= st.out + "λ"@ + name + " -> "@ + wrapped(
        text,
        own == 0,
    ));
    assert(scope.last() == name);
    assert(!st.bindings.contains(name)) by {
        if st.bindings.contains(name) {
            let k = choose|k: int| 0 <= k < st.bindings.len() && st.bindings[k] == name;
            lemma_numbers_differ(k as nat, st.bindings.len(), 'x', 'x');
            lemma_numbers_differ(k as nat, st.bindings.len(), 'f', 'x');
        }
    }
    assert forall|k: int| 0 <= k < scope.len() implies ({
        let n = #[trigger] scope[k];
        n == seq!['x'] + decimal(k as nat) || n == seq!['f'] + decimal(k as nat)
    }) by {
        if k < st.bindings.len() {
            assert(scope[k] == st.bindings[k]);
        }
    }
}

/// The names in scope all differ.
pub proof fn law_names_differ(names: Seq<Seq<char>>)
    requires
        well_named(names),
    ensures
        names.no_duplicates(),
{
    assert forall|i: int, j: int|
        0 <= i < names.len() && 0 <= j < names.len() && i != j implies names[i] != names[j] by {
        lemma_numbers_differ(i as nat, j as nat, 'x', 'x');
        lemma_numbers_differ(i as nat, j as nat, 'x', 'f');
        lemma_numbers_differ(i as nat, j as nat, 'f', 'x');
        lemma_numbers_differ(i as nat, j as nat, 'f', 'f');
    }
}

/// Where the body of a lambda is another lambda, the two are printed with one
/// sign: the name of the outer one comes before what the inner one alone has
/// behind its sign.
pub proof fn law_nested_lambdas<Op, N>(
    e: Seq<NodeView<Op>>,
    i: int,
    inner: usize,
    body: usize,
    st: PrintState,
) where Op: Printable + Teachable<N>, N: Number
    requires
        body < inner < i,
        binding_of::<Op, usize, N>(e[i]) == Some(BindingExpr::<usize, N>::Lambda(inner)),
        binding_of::<Op, usize, N>(e[inner as int]) == Some(BindingExpr::<usize, N>::Lambda(body)),
    ensures
        ({
            let name = seq!['x'] + decimal(st.bindings.len());
            let under = PrintState { bindings: st.bindings.push(name), ..st };
            match (naked::<Op, N>(e, i, st), naked::<Op, N>(e, inner as int, under)) {
                (None, None) => true,
                (Some(a), Some(b)) => exists|rest: Seq<char>|
                    b.out == #[trigger] (st.out + "λ"@ + rest) && a.out == st.out + "λ"@ + name
                        + seq![' '] + rest,
                _ => false,
            }
        }),
{
    let name = seq!['x'] + decimal(st.bindings.len());
    let scope = st.bindings.push(name);
    let fresh = PrintState { out: Seq::empty(), bindings: scope, ..st };
    assert(scope.last() == name);
    let o = st.out + "λ"@ + (name + seq![' ']);
    let p = st.out + "λ"@;
    lemma_abstraction::<Op, N>(e, body as int, fresh, o);
    lemma_abstraction::<Op, N>(e, body as int, fresh, p);
    assert(o + fresh.out =~= o && p + fresh.out =~= p);
    if let Some(s) = abstraction::<Op, N>(e, body as int, fresh) {
        let rest = s.out;
        assert(o + rest =~= st.out + "λ"@ + name + seq![' '] + rest);
        let under = PrintState { bindings: scope, ..st };
        assert(naked::<Op, N>(e, inner as int, under)->Some_0.out == st.out + "λ"@ + rest);
    }
}

// ---------------------------------------------------------------------------
// Applications, definitions and numbers
// ---------------------------------------------------------------------------

/// An application is the function, a blank and the argument. The function
/// needs parentheses where its precedence is below that of the application,
/// so applications of applications need none; the argument also where it is
/// the same.
pub proof fn law_application<Op, N>(
    e: Seq<NodeView<Op>>,
    i: int,
    fun: usize,
    arg: usize,
    st: PrintState,
    s: PrintState,
) where Op: Printable + Teachable<N>, N: Number
    requires
        binding_of::<Op, usize, N>(e[i]) == Some(BindingExpr::<usize, N>::Apply(fun, arg)),
        naked::<Op, N>(e, i, st) == Some(s),
    ensures
        ({
            let first = alone::<Op, N>(e, fun as int, st);
            let second = alone::<Op, N>(e, arg as int, first->Some_0);
            &&& first is Some && second is Some
            &&& s.memo == second->Some_0.memo
            &&& s.out == st.out + wrapped(
                first->Some_0.out,
                e[fun as int].operation.s_precedence() < st.precedence,
            ) + seq![' '] + wrapped(
                second->Some_0.out,
                e[arg as int].operation.s_precedence() <= st.precedence,
            )
        }),
{
    let low = PrintState { precedence: (st.precedence - 1) as u8, ..st };
    lemma_alone::<Op, N>(e, fun as int, low);
    assert(alone::<Op, N>(e, fun as int, low) == alone::<Op, N>(e, fun as int, st));
    let a = alone::<Op, N>(e, fun as int, st)->Some_0;
    let first = st.out + wrapped(
        a.out,
        e[fun as int].operation.s_precedence() <= (st.precedence - 1) as u8,
    );
    let mid = PrintState { out: first + seq![' '], precedence: st.precedence, ..a };
    lemma_alone::<Op, N>(e, arg as int, mid);
    assert(alone::<Op, N>(e, arg as int, mid) == alone::<Op, N>(e, arg as int, a));
}

/// A library function that is called is printed as its name.
pub proof fn law_called_library_function<Op, N>(
    e: Seq<NodeView<Op>>,
    i: int,
    id: LibId,
    st: PrintState,
) where Op: Printable + Teachable<N>, N: Number
    requires
        binding_of::<Op, usize, N>(e[i]) == Some(BindingExpr::<usize, N>::LibVar(id)),
    ensures
        naked::<Op, N>(e, i, st) == Some(
            PrintState { out: st.out + seq!['l'] + decimal(id.0 as nat), ..st },
        ),
{
    assert(st.out + (seq!['l'] + decimal(id.0 as nat)) =~= st.out + seq!['l'] + decimal(
        id.0 as nat,
    ));
}

/// A line break and two blanks for each level.
pub open spec fn new_line(depth: nat) -> Seq<char> {
    seq!['\n'] + Seq::new(depth * 2, |k: int| ' ')
}

proof fn lemma_block_text<Op, N>(e: Seq<NodeView<Op>>, i: int, st: PrintState) where
    Op: Printable + Teachable<N>,
    N: Number,

    requires
        block::<Op, N>(e, i, st) is Some,
    ensures
        ({
            let deeper = PrintState { indentation: st.indentation + 1, ..st };
            let a = alone::<Op, N>(e, i, deeper);
            &&& a is Some
            &&& block::<Op, N>(e, i, st)->Some_0 == (PrintState {
                out: st.out + new_line(st.indentation + 1) + wrapped(
                    a->Some_0.out,
                    e[i].operation.s_precedence() == 0,
                ),
                indentation: st.indentation,
                precedence: st.precedence,
                ..a->Some_0
            })
        }),
{
    let deeper = PrintState { indentation: st.indentation + 1, ..st };
    let s = deeper.line()->Some_0;
    assert(line_break(deeper.indentation as usize) =~= new_line(st.indentation + 1));
    let low = PrintState { precedence: 0, ..s };
    lemma_alone::<Op, N>(e, i, low);
    assert(alone::<Op, N>(e, i, low) == alone::<Op, N>(e, i, deeper));
}

/// The definition of a library function is its name, its value and the
/// expression that uses it, the last two on lines of their own and one level
/// further in.
#[verifier::rlimit(60)]
pub proof fn law_definition<Op, N>(
    e: Seq<NodeView<Op>>,
    i: int,
    id: LibId,
    value: usize,
    body: usize,
    lat_cpu: N,
    lat_acc: N,
    area: usize,
    st: PrintState,
    s: PrintState,
) where Op: Printable + Teachable<N>, N: Number
    requires
        binding_of::<Op, usize, N>(e[i]) == Some(
            BindingExpr::<usize, N>::Lib(id, value, body, lat_cpu, lat_acc, area),
        ),
        naked::<Op, N>(e, i, st) == Some(s),
    ensures
        s.indentation == st.indentation,
        s.bindings == st.bindings,
        ({
            let deeper = PrintState {
                indentation: st.indentation + 1,
                bindings: st.bindings.push(seq!['f'] + decimal(st.bindings.len())),
                ..st
            };
            let first = alone::<Op, N>(e, value as int, deeper);
            let second = alone::<Op, N>(
                e,
                body as int,
                PrintState { indentation: st.indentation + 1, ..first->Some_0 },
            );
            &&& first is Some && second is Some
            &&& s.out == st.out + "lib l"@ + decimal(id.0 as nat) + " ="@ + new_line(
                st.indentation + 1,
            ) + wrapped(first->Some_0.out, e[value as int].operation.s_precedence() == 0)
                + new_line(st.indentation) + "in"@ + new_line(st.indentation + 1) + wrapped(
                second->Some_0.out,
                e[body as int].operation.s_precedence() == 0,
            )
        }),
{
    let bound = crate::ast_node::print_expr::with_name(st, 'f');
    let head = "lib "@ + id.shown() + " ="@;
    let from = bound.write(head);
    lemma_block_text::<Op, N>(e, value as int, from);
    let t = block::<Op, N>(e, value as int, from)->Some_0;
    let u = t.line()->Some_0;
    assert(line_break(t.indentation as usize) =~= new_line(st.indentation));
    let v = u.write("in"@);
    lemma_block_text::<Op, N>(e, body as int, v);
    let deeper = PrintState {
        indentation: st.indentation + 1,
        bindings: st.bindings.push(seq!['f'] + decimal(st.bindings.len())),
        ..st
    };
    assert(deeper.bindings == bound.bindings);
    assert(alone::<Op, N>(e, value as int, PrintState { indentation: from.indentation + 1, ..from })
        == alone::<Op, N>(e, value as int, deeper));
    let a = alone::<Op, N>(e, value as int, deeper)->Some_0;
    let next = PrintState { indentation: st.indentation + 1, ..a };
    assert(alone::<Op, N>(e, body as int, PrintState { indentation: v.indentation + 1, ..v })
        == alone::<Op, N>(e, body as int, next));
    let b = alone::<Op, N>(e, body as int, next)->Some_0;
    reveal_strlit("lib ");
    reveal_strlit("lib l");
    assert("lib "@ + seq!['l'] =~= "lib l"@);
    assert(s.out =~= st.out + "lib l"@ + decimal(id.0 as nat) + " ="@ + new_line(
        st.indentation + 1,
    ) + wrapped(a.out, e[value as int].operation.s_precedence() == 0) + new_line(st.indentation)
        + "in"@ + new_line(st.indentation + 1) + wrapped(
        b.out,
        e[body as int].operation.s_precedence() == 0,
    ));
}

/// A text behind a number in brackets and a colon.
pub open spec fn numbered(id: nat, text: Seq<char>) -> Seq<char> {
    seq!['['] + decimal(id) + seq![']', ':'] + text
}

/// A node that is printed for the first time has the next number in front.
pub proof fn law_first_time<Op, N>(
    e: Seq<NodeView<Op>>,
    i: usize,
    st: PrintState,
    s: PrintState,
) where Op: Printable + Teachable<N>, N: Number
    requires
        !st.memo.dom().contains(i),
        printed::<Op, N>(e, i as int, st) == Some(s),
    ensures
        s.memo.dom().contains(i),
        s.memo[i] == st.next_id,
        s.next_id > st.next_id,
        exists|rest: Seq<char>|
            s.out == st.out + wrapped(
                #[trigger] numbered(st.next_id, rest),
                e[i as int].operation.s_precedence() <= st.precedence,
            ),
{
    let own = e[i as int].operation.s_precedence();
    lemma_alone::<Op, N>(e, i as int, st);
    let id = st.next_id;
    let head = tag(id) + seq![':'];
    let fresh = PrintState {
        out: Seq::<char>::empty(),
        precedence: own,
        memo: st.memo.insert(i, id as usize),
        next_id: id + 1,
        ..st
    };
    lemma_naked::<Op, N>(e, i as int, fresh, head);
    assert(lifted(head, fresh) == fresh.write(head)) by {
        assert(head + fresh.out =~= fresh.out + head);
    }
    let a = naked::<Op, N>(e, i as int, fresh)->Some_0;
    assert(fresh.memo.dom().contains(i));
    assert(a.memo.dom().contains(i));
    assert(head + a.out =~= numbered(id, a.out));
    assert(s.out == st.out + wrapped(numbered(st.next_id, a.out), own <= st.precedence));
}

/// A node that was printed is printed as its number.
pub proof fn law_second_time<Op, N>(
    e: Seq<NodeView<Op>>,
    i: usize,
    st: PrintState,
) where Op: Printable + Teachable<N>, N: Number
    requires
        st.memo.dom().contains(i),
    ensures
        printed::<Op, N>(e, i as int, st) == Some(
            PrintState {
                out: st.out + wrapped(
                    seq!['['] + decimal(st.memo[i] as nat) + seq![']'],
                    e[i as int].operation.s_precedence() <= st.precedence,
                ),
                ..st
            },
        ),
{
    lemma_alone::<Op, N>(e, i as int, st);
    let a = alone::<Op, N>(e, i as int, st)->Some_0;
    assert(a.out =~= seq!['['] + decimal(st.memo[i] as nat) + seq![']']);
}

/// Printing leaves the numbers of the nodes that were printed as they are.
pub proof fn law_numbers_stay<Op, N>(
    e: Seq<NodeView<Op>>,
    i: int,
    st: PrintState,
    s: PrintState,
) where Op: Printable + Teachable<N>, N: Number
    requires
        printed::<Op, N>(e, i, st) == Some(s),
    ensures
        numbers_stay(st, s),
{
    lemma_printed::<Op, N>(e, i, st, Seq::empty());
}

} // verus!
