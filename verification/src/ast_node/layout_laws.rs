//! How the arguments of an operation are laid out.
use crate::ast_node::pretty::{text_bytes, Precedence};
use crate::ast_node::print_expr::{
    all_args, args_printed, in_context, laid_out, piece_printed, pieces_printed, printed, Breaks,
    LayoutView, PieceView, PrintState, Printable,
};
use crate::ast_node::NodeView;
use crate::number::Number;
use crate::teachable::Teachable;
use vstd::prelude::*;

verus! {

/// What stands between two arguments: the separator, and where lines are
/// broken a new line with two blanks for each level of indentation.
pub open spec fn gap(sep: Seq<char>, broken: bool, indentation: nat) -> Seq<char> {
    if broken {
        sep.push('\n') + Seq::new(2 * indentation, |i: int| ' ')
    } else {
        sep
    }
}

/// The first argument is printed at once. Every further one is printed behind
/// those before it and a gap.
pub proof fn law_arguments_follow_each_other<Op, N>(
    e: Seq<NodeView<Op>>,
    i: int,
    k: nat,
    sep: Seq<char>,
    broken: bool,
    context: Option<Precedence>,
    st: PrintState,
    s: PrintState,
    t: PrintState,
) where Op: Printable + Teachable<N>, N: Number
    requires
        k < e[i].args.len(),
        args_printed::<Op, N>(e, i, k, sep, broken, context, st) == Some(s),
        args_printed::<Op, N>(e, i, k + 1, sep, broken, context, st) == Some(t),
    ensures
        k == 0 ==> s == st,
        ({
            let arg = e[i].args[k as int] as int;
            let at = if k == 0 {
                st
            } else {
                PrintState { out: s.out + gap(sep, broken, s.indentation), ..s }
            };
            &&& 0 <= arg < i
            &&& context is None ==> printed::<Op, N>(e, arg, at) == Some(t)
            &&& context is Some ==> in_context::<Op, N>(e, arg, context->Some_0, at) == Some(t)
        }),
{
    if k > 0 {
        let blanks = Seq::new(2 * s.indentation, |i: int| ' ');
        if broken {
            assert(s.write(sep).line() is Some);
            assert(s.out + sep + (seq!['\n'] + Seq::new(
                ((s.indentation as usize) * 2) as nat,
                |i: int| ' ',
            )) =~= s.out + (sep.push('\n') + blanks));
            assert(s.write(sep).line()->Some_0.out =~= s.out + gap(sep, broken, s.indentation));
        }
    }
}

proof fn lemma_ascii(s: Seq<char>)
    requires
        forall|i: int| 0 <= i < s.len() ==> (#[trigger] s[i] as u32) < 128,
    ensures
        text_bytes(s) == s.len(),
    decreases s.len(),
{
    if s.len() > 0 {
        let t = s.drop_last();
        assert forall|i: int| 0 <= i < t.len() implies (#[trigger] t[i] as u32) < 128 by {
            assert(t[i] == s[i]);
        }
        lemma_ascii(t);
        assert((s[s.len() - 1] as u32) < 128);
    }
}

/// Arguments that may be broken stay on one line where that has no line break
/// but at its end and, in plain characters, no more than eighty of them.
/// Otherwise each is printed on a line of its own, from where printing was.
pub proof fn law_long_lines_are_broken<Op, N>(
    e: Seq<NodeView<Op>>,
    i: int,
    lay: LayoutView,
    st: PrintState,
    one_line: PrintState,
) where Op: Printable + Teachable<N>, N: Number
    requires
        lay.breaks == Breaks::WhenLong,
        args_printed::<Op, N>(
            e,
            i,
            e[i].args.len(),
            lay.sep,
            false,
            lay.context,
            PrintState { out: Seq::empty(), ..st },
        ) == Some(one_line),
        forall|j: int|
            0 <= j < one_line.out.len() ==> (#[trigger] one_line.out[j] as u32) < 128,
    ensures
        ({
            let breaks = exists|j: int|
                0 <= j < one_line.out.len() - 1 && one_line.out[j] == '\n';
            if breaks || one_line.out.len() > 80 {
                all_args::<Op, N>(e, i, lay, st) == args_printed::<Op, N>(
                    e,
                    i,
                    e[i].args.len(),
                    lay.sep,
                    true,
                    lay.context,
                    PrintState { next_id: one_line.next_id, ..st },
                )
            } else {
                all_args::<Op, N>(e, i, lay, st) == Some(
                    PrintState { out: st.out + one_line.out, ..one_line },
                )
            }
        }),
{
    lemma_ascii(one_line.out);
}

/// Arguments that are always broken, or never, are printed so.
pub proof fn law_breaks_as_asked<Op, N>(
    e: Seq<NodeView<Op>>,
    i: int,
    lay: LayoutView,
    st: PrintState,
) where Op: Printable + Teachable<N>, N: Number
    requires
        lay.breaks != Breaks::WhenLong,
    ensures
        all_args::<Op, N>(e, i, lay, st) == args_printed::<Op, N>(
            e,
            i,
            e[i].args.len(),
            lay.sep,
            lay.breaks == Breaks::Always,
            lay.context,
            st,
        ),
{
}

/// A piece is a text, a new line, a change of the indentation by one level, or
/// an argument.
pub proof fn law_pieces<Op, N>(
    e: Seq<NodeView<Op>>,
    i: int,
    piece: PieceView,
    st: PrintState,
    s: PrintState,
) where Op: Printable + Teachable<N>, N: Number
    requires
        piece_printed::<Op, N>(e, i, piece, st) == Some(s),
    ensures
        match piece {
            PieceView::Text(text) => s == (PrintState { out: st.out + text, ..st }),
            PieceView::Line => s == (PrintState {
                out: st.out + gap(Seq::empty(), true, st.indentation),
                ..st
            }),
            PieceView::Indent => s == (PrintState { indentation: st.indentation + 1, ..st }),
            PieceView::Dedent => s.indentation + 1 == st.indentation && s == (PrintState {
                indentation: s.indentation,
                ..st
            }),
            PieceView::Arg(j, context) => {
                &&& j < e[i].args.len()
                &&& context is None ==> printed::<Op, N>(e, e[i].args[j as int] as int, st)
                    == Some(s)
                &&& context is Some ==> in_context::<Op, N>(
                    e,
                    e[i].args[j as int] as int,
                    context->Some_0,
                    st,
                ) == Some(s)
            },
        },
{
    if piece == PieceView::Line {
        assert(st.out + (seq!['\n'] + Seq::new(
            ((st.indentation as usize) * 2) as nat,
            |i: int| ' ',
        )) =~= st.out + (Seq::<char>::empty().push('\n') + Seq::new(
            2 * st.indentation,
            |i: int| ' ',
        )));
        assert(s.out =~= st.out + gap(Seq::empty(), true, st.indentation));
    }
}

/// An operation without pieces is printed as what stands before its arguments,
/// the arguments, a level deeper where they are indented, and what stands
/// behind them. The indentation is then what it was.
pub proof fn law_operation_around_its_arguments<Op, N>(
    e: Seq<NodeView<Op>>,
    i: int,
    lay: LayoutView,
    st: PrintState,
    s: PrintState,
) where Op: Printable + Teachable<N>, N: Number
    requires
        lay.pieces.len() == 0,
        laid_out::<Op, N>(e, i, lay, st) == Some(s),
    ensures
        s.indentation == st.indentation,
        !lay.args ==> s == (PrintState { out: st.out + lay.before + lay.after, ..st }),
        lay.args ==> {
            let inner = PrintState {
                out: st.out + lay.before,
                indentation: if lay.indent {
                    st.indentation + 1
                } else {
                    st.indentation
                },
                ..st
            };
            &&& all_args::<Op, N>(e, i, lay, inner) is Some
            &&& s.out == all_args::<Op, N>(e, i, lay, inner)->Some_0.out + lay.after
            &&& s.memo == all_args::<Op, N>(e, i, lay, inner)->Some_0.memo
        },
{
    assert(pieces_printed::<Op, N>(e, i, lay.pieces, 0, st.write(lay.before)) == Some(
        st.write(lay.before),
    ));
    if lay.args {
        let inner = PrintState {
            out: st.out + lay.before,
            indentation: if lay.indent {
                st.indentation + 1
            } else {
                st.indentation
            },
            ..st
        };
        let from = if lay.indent {
            PrintState {
                indentation: st.write(lay.before).indentation + 1,
                ..st.write(lay.before)
            }
        } else {
            st.write(lay.before)
        };
        assert(inner == from);
    }
}

} // verus!
