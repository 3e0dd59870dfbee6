//! Languages that support library learning.
use crate::ast_node::{AstNode, NodeView};
use crate::learn::LibId;
use crate::number::Number;
use crate::text::{decimal, decimal_text, parse_usize, text_of, to_chars, unsigned_value};
use std::num::ParseIntError;
use vstd::prelude::*;

verus! {

/// The constructs that library learning needs: functions, applications,
/// definitions of library functions, and both named and de Bruijn-indexed
/// variables.
#[derive(Clone, Copy, Debug)]
pub enum BindingExpr<T, N> {
    /// A de Bruijn index.
    Var(DeBruijnIndex),
    /// A reference to a named library function.
    LibVar(LibId),
    /// A lambda.
    Lambda(T),
    /// An application of a function to an argument.
    Apply(T, T),
    /// A definition of a library function, its value and the scope: then its
    /// latency on the processor, its latency on the accelerator, and its area.
    Lib(LibId, T, T, N, N, usize),
}

/// The construct with its parts themselves in place of references to them.
pub open spec fn by_value<T, N>(b: BindingExpr<&T, N>) -> BindingExpr<T, N> {
    match b {
        BindingExpr::Var(i) => BindingExpr::Var(i),
        BindingExpr::LibVar(id) => BindingExpr::LibVar(id),
        BindingExpr::Lambda(body) => BindingExpr::Lambda(*body),
        BindingExpr::Apply(fun, arg) => BindingExpr::Apply(*fun, *arg),
        BindingExpr::Lib(id, value, body, lat_cpu, lat_acc, area) => BindingExpr::Lib(
            id,
            *value,
            *body,
            lat_cpu,
            lat_acc,
            area,
        ),
    }
}

/// The construct without its parts.
pub open spec fn kind_of<T, N>(b: BindingExpr<T, N>) -> BindingExpr<(), N> {
    match b {
        BindingExpr::Var(i) => BindingExpr::Var(i),
        BindingExpr::LibVar(id) => BindingExpr::LibVar(id),
        BindingExpr::Lambda(_) => BindingExpr::Lambda(()),
        BindingExpr::Apply(_, _) => BindingExpr::Apply((), ()),
        BindingExpr::Lib(id, _, _, lat_cpu, lat_acc, area) => BindingExpr::Lib(
            id,
            (),
            (),
            lat_cpu,
            lat_acc,
            area,
        ),
    }
}

/// The parts of a construct, in order.
pub open spec fn parts_of<T, N>(b: BindingExpr<T, N>) -> Seq<T> {
    match b {
        BindingExpr::Var(_) | BindingExpr::LibVar(_) => Seq::empty(),
        BindingExpr::Lambda(body) => seq![body],
        BindingExpr::Apply(fun, arg) => seq![fun, arg],
        BindingExpr::Lib(_, value, body, _, _, _) => seq![value, body],
    }
}

/// The number of parts of a construct.
pub open spec fn part_count<N>(b: BindingExpr<(), N>) -> nat {
    match b {
        BindingExpr::Var(_) | BindingExpr::LibVar(_) => 0,
        BindingExpr::Lambda(_) => 1,
        BindingExpr::Apply(_, _) | BindingExpr::Lib(_, _, _, _, _, _) => 2,
    }
}

/// The construct with these parts.
pub open spec fn with_parts<T, N>(b: BindingExpr<(), N>, parts: Seq<T>) -> BindingExpr<T, N> {
    match b {
        BindingExpr::Var(i) => BindingExpr::Var(i),
        BindingExpr::LibVar(id) => BindingExpr::LibVar(id),
        BindingExpr::Lambda(_) => BindingExpr::Lambda(parts[0]),
        BindingExpr::Apply(_, _) => BindingExpr::Apply(parts[0], parts[1]),
        BindingExpr::Lib(id, _, _, lat_cpu, lat_acc, area) => BindingExpr::Lib(
            id,
            parts[0],
            parts[1],
            lat_cpu,
            lat_acc,
            area,
        ),
    }
}

/// The node of a construct.
pub open spec fn node_of<Op: Teachable<N>, T, N: Number>(b: BindingExpr<T, N>) -> NodeView<Op, T> {
    NodeView { operation: Op::s_operation(kind_of(b)), args: parts_of(b) }
}

/// The construct of a node, if it is one.
pub open spec fn binding_of<Op: Teachable<N>, T, N: Number>(node: NodeView<Op, T>) -> Option<
    BindingExpr<T, N>,
> {
    match node.operation.s_construct(node.args.len()) {
        Some(b) => Some(with_parts(b, node.args)),
        None => None,
    }
}

/// The node of a construct is that construct.
pub proof fn law_binding_reads_back<Op: Teachable<N>, T, N: Number>(b: BindingExpr<T, N>)
    ensures
        binding_of::<Op, T, N>(node_of::<Op, T, N>(b)) == Some(b),
{
    Op::construct_reads_back(kind_of(b));
}

/// The parts of a construct are the arguments of its node.
pub proof fn law_binding_parts_are_args<Op: Teachable<N>, T, N: Number>(node: NodeView<Op, T>)
    ensures
        match binding_of::<Op, T, N>(node) {
            Some(b) => parts_of(b) == node.args,
            None => true,
        },
{
    Op::construct_parts(node.operation);
    match binding_of::<Op, T, N>(node) {
        Some(b) => {
            assert(parts_of(b) =~= node.args);
        },
        None => {},
    }
}

/// Operations of a language that supports library learning.
pub trait Teachable<N: Number>: Sized {
    /// The operation of a construct.
    open spec fn s_operation(b: BindingExpr<(), N>) -> Self {
        arbitrary()
    }

    /// The construct that the operation with so many arguments is, if it is
    /// one.
    open spec fn s_construct(&self, args: nat) -> Option<BindingExpr<(), N>> {
        arbitrary()
    }

    /// The operation that lists expressions.
    open spec fn s_list() -> Self {
        arbitrary()
    }

    /// The operation of a construct is that construct.
    proof fn construct_reads_back(b: BindingExpr<(), N>)
        ensures
            Self::s_operation(b).s_construct(part_count(b)) == Some(b),
    ;

    /// A construct has as many parts as its operation has arguments.
    proof fn construct_parts(op: Self)
        ensures
            forall|args: nat|
                (#[trigger] op.s_construct(args)) is Some ==> part_count(
                    op.s_construct(args)->Some_0,
                ) == args,
    ;

    /// Converts a construct into a node.
    fn from_binding_expr<T>(binding_expr: BindingExpr<T, N>) -> (r: AstNode<Self, T>)
        ensures
            r@ == (NodeView {
                operation: Self::s_operation(kind_of(binding_expr)),
                args: parts_of(binding_expr),
            }),
    ;

    /// The construct of a node, with references to its arguments, or `None`
    /// where the node is none.
    fn as_binding_expr<T>(node: &AstNode<Self, T>) -> (r: Option<BindingExpr<&T, N>>)
        ensures
            match r {
                Some(b) => {
                    &&& node@.operation.s_construct(node@.args.len()) == Some(
                        kind_of(by_value(b)),
                    )
                    &&& parts_of(by_value(b)) == node@.args
                },
                None => node@.operation.s_construct(node@.args.len()) is None,
            },
    ;

    /// The operation that lists expressions, used to join several into one.
    fn list() -> (r: Self)
        ensures
            r == Self::s_list(),
    ;

    /// A lambda with the given body.
    fn lambda<T>(body: T) -> (r: AstNode<Self, T>)
        ensures
            r@ == (NodeView {
                operation: Self::s_operation(BindingExpr::Lambda(())),
                args: seq![body],
            }),
    {
        Self::from_binding_expr(BindingExpr::Lambda(body))
    }

    /// An application of a function to an argument.
    fn apply<T>(fun: T, arg: T) -> (r: AstNode<Self, T>)
        ensures
            r@ == (NodeView {
                operation: Self::s_operation(BindingExpr::Apply((), ())),
                args: seq![fun, arg],
            }),
    {
        Self::from_binding_expr(BindingExpr::Apply(fun, arg))
    }

    /// A de Bruijn-indexed variable.
    fn var<T>(index: usize) -> (r: AstNode<Self, T>)
        ensures
            r@ == (NodeView {
                operation: Self::s_operation(BindingExpr::Var(DeBruijnIndex(index))),
                args: Seq::<T>::empty(),
            }),
    {
        Self::from_binding_expr(BindingExpr::Var(DeBruijnIndex(index)))
    }

    /// A definition of the library function `name` as `value` in `body`.
    fn lib<T>(name: LibId, value: T, body: T, latency_cpu: N, latency_acc: N, area: usize) -> (r:
        AstNode<Self, T>)
        ensures
            r@ == (NodeView {
                operation: Self::s_operation(
                    BindingExpr::Lib(name, (), (), latency_cpu, latency_acc, area),
                ),
                args: seq![value, body],
            }),
    {
        Self::from_binding_expr(
            BindingExpr::Lib(name, value, body, latency_cpu, latency_acc, area),
        )
    }

    /// A reference to a library function.
    fn lib_var<T>(name: LibId) -> (r: AstNode<Self, T>)
        ensures
            r@ == (NodeView {
                operation: Self::s_operation(BindingExpr::LibVar(name)),
                args: Seq::<T>::empty(),
            }),
    {
        Self::from_binding_expr(BindingExpr::LibVar(name))
    }

    /// The operation without its particulars.
    fn to_shielding_op(&self) -> (r: ShieldingOp)
        default_ensures
            r matches ShieldingOp::Dummy(s) && s@.len() == 0,
    {
        ShieldingOp::Dummy(String::new())
    }
}

/// A de Bruijn index. Its text is a dollar sign followed by the number.
#[derive(Clone, Copy, Debug, PartialEq, Eq, PartialOrd, Ord, Hash, Structural)]
pub struct DeBruijnIndex(pub usize);

impl Default for DeBruijnIndex {
    fn default() -> (r: Self)
        ensures
            r.0 == 0,
    {
        DeBruijnIndex(0)
    }
}

impl From<usize> for DeBruijnIndex {
    fn from(index: usize) -> (r: Self) {
        DeBruijnIndex(index)
    }
}

impl vstd::std_specs::convert::FromSpecImpl<usize> for DeBruijnIndex {
    open spec fn obeys_from_spec() -> bool {
        true
    }

    open spec fn from_spec(index: usize) -> Self {
        DeBruijnIndex(index)
    }
}

impl From<DeBruijnIndex> for usize {
    fn from(index: DeBruijnIndex) -> (r: Self) {
        index.0
    }
}

impl vstd::std_specs::convert::FromSpecImpl<DeBruijnIndex> for usize {
    open spec fn obeys_from_spec() -> bool {
        true
    }

    open spec fn from_spec(index: DeBruijnIndex) -> Self {
        index.0
    }
}

/// Why a text is not a de Bruijn index.
#[derive(Debug)]
pub enum ParseDeBruijnIndexError {
    /// The text does not start with a dollar sign.
    NoLeadingDollar,
    /// What follows the dollar sign is not an unsigned integer.
    InvalidIndex(ParseIntError),
}

impl DeBruijnIndex {
    /// The text of the index.
    pub open spec fn shown(self) -> Seq<char> {
        seq!['$'] + decimal(self.0 as nat)
    }

    /// The text of the index.
    pub fn to_text(&self) -> (r: String)
        ensures
            r@ == self.shown(),
    {
        let mut s: String = String::new();
        s.push('$');
        s.append(decimal_text(self.0).as_str());
        assert(s@ =~= self.shown());
        s
    }

    /// Reads an index.
    pub fn parse(s: &str) -> (r: Result<DeBruijnIndex, ParseDeBruijnIndexError>)
        ensures
            if s@.len() == 0 || s@[0] != '$' {
                r is Err && r->Err_0 is NoLeadingDollar
            } else {
                match unsigned_value(s@.drop_first()) {
                    Some(n) if n <= usize::MAX => r is Ok && r->Ok_0.0 == n,
                    _ => r is Err && r->Err_0 is InvalidIndex,
                }
            },
    {
        let cs: Vec<char> = to_chars(s);
        if cs.len() == 0 || cs[0] != '$' {
            return Err(ParseDeBruijnIndexError::NoLeadingDollar);
        }
        let rest: String = text_of(&cs, 1, cs.len());
        assert(rest@ =~= s@.drop_first());
        match parse_usize(rest.as_str()) {
            Ok(n) => Ok(DeBruijnIndex(n)),
            Err(e) => Err(ParseDeBruijnIndexError::InvalidIndex(e)),
        }
    }
}

/// Reading the text of an index gives the index back.
pub proof fn law_de_bruijn_index_reads_back(index: DeBruijnIndex)
    ensures
        index.shown().len() > 0,
        index.shown()[0] == '$',
        unsigned_value(index.shown().drop_first()) == Some(index.0 as nat),
{
    crate::text::law_decimal_reads_back(index.0 as nat);
    assert(index.shown().drop_first() =~= decimal(index.0 as nat));
}

// ---------------------------------------------------------------------------
// Operations without their particulars
// ---------------------------------------------------------------------------

/// What is kept of an operation when it is hashed for learning: the kind of
/// operation, without constants and other particulars.
#[derive(Clone, Debug, PartialEq, Eq, PartialOrd, Ord, Hash)]
pub enum ShieldingOp {
    List,
    Lambda,
    Apply,
    Var,
    Lib(LibId),
    LibVar(LibId),
    Const(ShieldingConst),
    Top(ShieldingTop),
    Bop(ShieldingBop),
    Uop(ShieldingUop),
    Get,
    Tuple,
    Switch,
    DoWhile,
    Arg,
    Function(String),
    Dummy(String),
    RulerVar,
    IOBarrier,
    ZExt,
    FPTrunc,
    FPExt,
    VectorOp(VectorOp),
    OpPack,
    OpSelect,
    OpMask,
}

impl Default for ShieldingOp {
    fn default() -> (r: Self)
        ensures
            r == ShieldingOp::Const(ShieldingConst::Int(Some(0u32))),
    {
        ShieldingOp::Const(ShieldingConst::Int(Some(0)))
    }
}

/// The kind of a constant, with its width in bits.
#[derive(Clone, Copy, Debug, PartialEq, Eq, PartialOrd, Ord, Hash)]
pub enum ShieldingConst {
    Int(Option<u32>),
    Float(Option<u32>),
    /// The number of lanes and the width of each.
    VecInt(u32, u32),
    /// The number of lanes and the width of each.
    VecFloat(u32, u32),
}

/// An operation of three operands.
#[derive(Clone, Copy, Debug, PartialEq, Eq, PartialOrd, Ord, Hash)]
pub enum ShieldingTop {
    Store,
    Select,
}

/// An operation of two operands.
#[derive(Clone, Copy, Debug, PartialEq, Eq, PartialOrd, Ord, Hash)]
pub enum ShieldingBop {
    Add,
    Sub,
    Mul,
    Div,
    Mod,
    Eq,
    Ne,
    LessThan,
    GreaterThan,
    LessEq,
    GreaterEq,
    Max,
    Min,
    Shl,
    Shr,
    And,
    Or,
    Xor,
    Load,
    StateMerge,
}

/// An operation of one operand.
#[derive(Clone, Copy, Debug, PartialEq, Eq, PartialOrd, Ord, Hash)]
pub enum ShieldingUop {
    Abs,
    Not,
    Neg,
    Cast(CastOp),
}

/// A change of width.
#[derive(Clone, Copy, Debug, PartialEq, Eq, PartialOrd, Ord, Hash)]
pub enum CastOp {
    ZExt,
    SExt,
    Trunc,
    FPTrunc,
    FPExt,
}

/// An operation on vectors.
#[derive(Clone, Copy, Debug, PartialEq, Eq, PartialOrd, Ord, Hash)]
pub enum VectorOp {
    Vec,
    VecAdd,
    VecCmp,
    VecSub,
    VecMul,
    VecDiv,
    VecMac,
    VecNeg,
    VecNot,
    VecSext,
    VecZext,
    VecTrunc,
    VecFPTrunc,
    VecFPExt,
    VecAbs,
    VecRem,
    VecAnd,
    VecOr,
    VecXor,
    VecLoad,
    VecStore,
    VecShr,
    VecShl,
    Concat,
    Gather,
    Shuffle,
}

} // verus!
