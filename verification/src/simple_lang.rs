//! A simple lambda calculus.
use crate::ast_node::print_expr::{word_view, Breaks, Layout, LayoutView, Printable};
use crate::ast_node::pretty::Precedence;
use crate::ast_node::{Arity, AstNode, Duplicate, Identical, NodeView};
use crate::au_filter::TypeAnalysis;
use crate::bb_query::{BBQuery, QueryView};
use crate::extract::beam_pareto::{Shown, TypeInfo};
use crate::learn::{DiscriminantEq, LibId};
use crate::number::Number;
use crate::rewrites::pattern::ReadOp;
use crate::rewrites::type_match::ReadType;
use crate::runner::operation::OperationInfo;
use crate::schedule::Schedulable;
use crate::symbol::{intern, name_of, only_symbol, same_symbol, symbol_name};
use crate::teachable::{BindingExpr, DeBruijnIndex, Teachable};
use crate::text::{
    decimal, decimal_text, same_text, signed_decimal, signed_text, texts, unsigned_value,
};
use egg::Symbol;
use vstd::prelude::*;

verus! {

/// The operations of the language.
#[derive(Clone, Copy, Debug)]
pub enum SimpleOp<N: Number> {
    /// A function application.
    Apply,
    /// A de Bruijn-indexed variable.
    Var(DeBruijnIndex),
    /// A reference to a library function.
    LibVar(LibId),
    /// An uninterpreted symbol.
    Symbol(Symbol),
    /// An anonymous function.
    Lambda,
    /// A definition of a library function, with its latency on the processor,
    /// its latency on the accelerator and its area.
    Lib(LibId, N, N, usize),
    /// A list of expressions.
    List,
    /// An addition.
    Add,
    /// A constant.
    Const(i64),
}

impl<N: Number> SimpleOp<N> {
    /// The text of the operation.
    pub open spec fn s_text(self) -> Seq<char> {
        match self {
            SimpleOp::Apply => "@"@,
            SimpleOp::Lambda => "λ"@,
            SimpleOp::Lib(id, _, _, _) => "lib "@ + id.shown(),
            SimpleOp::LibVar(id) => "l"@ + id.shown(),
            SimpleOp::Var(index) => "$"@ + index.shown(),
            SimpleOp::Symbol(s) => symbol_name(s),
            SimpleOp::List => "list"@,
            SimpleOp::Add => "+"@,
            SimpleOp::Const(i) => signed_decimal(i as int),
        }
    }

    /// The text of the operation.
    pub fn to_text(&self) -> (r: String)
        ensures
            r@ == self.s_text(),
    {
        match self {
            SimpleOp::Apply => "@".to_owned(),
            SimpleOp::Lambda => "λ".to_owned(),
            SimpleOp::Lib(id, _, _, _) => {
                let mut s: String = "lib ".to_owned();
                s.append(id.to_text().as_str());
                s
            },
            SimpleOp::LibVar(id) => {
                let mut s: String = "l".to_owned();
                s.append(id.to_text().as_str());
                s
            },
            SimpleOp::Var(index) => {
                let mut s: String = "$".to_owned();
                s.append(index.to_text().as_str());
                s
            },
            SimpleOp::Symbol(s) => name_of(s),
            SimpleOp::List => "list".to_owned(),
            SimpleOp::Add => "+".to_owned(),
            SimpleOp::Const(i) => signed_text(*i),
        }
    }

    /// The number behind a sign, if a text is one.
    pub open spec fn tagged_number(s: Seq<char>, sign: char) -> Option<usize> {
        if s.len() == 0 || s[0] != sign {
            None
        } else {
            match unsigned_value(s.drop_first()) {
                Some(n) => if n <= usize::MAX {
                    Some(n as usize)
                } else {
                    None
                },
                None => None,
            }
        }
    }

    /// Whether a text reads as an operation. Every text that is nothing else
    /// is a symbol.
    pub open spec fn reads(s: Seq<char>, op: Self) -> bool {
        if s == "apply"@ || s == "@"@ {
            op == SimpleOp::<N>::Apply
        } else if s == "lambda"@ || s == "λ"@ {
            op == SimpleOp::<N>::Lambda
        } else if s == "list"@ {
            op == SimpleOp::<N>::List
        } else if Self::tagged_number(s, '$') is Some {
            op == SimpleOp::<N>::Var(DeBruijnIndex(Self::tagged_number(s, '$')->Some_0))
        } else if Self::tagged_number(s, 'l') is Some {
            op == SimpleOp::<N>::LibVar(LibId(Self::tagged_number(s, 'l')->Some_0))
        } else {
            op matches SimpleOp::Symbol(x) && symbol_name(x) == s && only_symbol(x)
        }
    }

    /// Reads an operation.
    pub fn parse(input: &str) -> (r: Self)
        ensures
            Self::reads(input@, r),
    {
        if same_text(input, "apply") || same_text(input, "@") {
            return SimpleOp::Apply;
        }
        if same_text(input, "lambda") || same_text(input, "λ") {
            return SimpleOp::Lambda;
        }
        if same_text(input, "list") {
            return SimpleOp::List;
        }
        match DeBruijnIndex::parse(input) {
            Ok(index) => SimpleOp::Var(index),
            Err(_) => match LibId::parse(input) {
                Ok(id) => SimpleOp::LibVar(id),
                Err(_) => SimpleOp::Symbol(intern(input)),
            },
        }
    }
}

impl<N: Number> Default for SimpleOp<N> {
    fn default() -> (r: Self)
        ensures
            r == SimpleOp::<N>::List,
    {
        SimpleOp::List
    }
}

impl<N: Number> Duplicate for SimpleOp<N> {
    fn duplicate(&self) -> (r: Self) {
        *self
    }
}

impl<N: Number> ReadOp for SimpleOp<N> {
    open spec fn s_reads(s: Seq<char>, op: Option<Self>) -> bool {
        match op {
            Some(op) => Self::reads(s, op),
            None => false,
        }
    }

    proof fn reads_one_way() {
        assert forall|s: Seq<char>, a: Option<Self>, b: Option<Self>| #[trigger]
            Self::s_reads(s, a) && #[trigger] Self::s_reads(s, b) implies a == b by {
            if let (Some(SimpleOp::Symbol(x)), Some(SimpleOp::Symbol(y))) = (a, b) {
                assert(symbol_name(y) == symbol_name(x));
            }
        }
    }

    fn read_op(s: &str) -> (r: Option<Self>) {
        Some(SimpleOp::parse(s))
    }
}

impl<N: Number> DiscriminantEq for SimpleOp<N> {
    open spec fn s_discriminant_eq(&self, other: &Self) -> bool {
        match (*self, *other) {
            (SimpleOp::Apply, SimpleOp::Apply) => true,
            (SimpleOp::Lambda, SimpleOp::Lambda) => true,
            (SimpleOp::LibVar(a), SimpleOp::LibVar(b)) => a == b,
            (SimpleOp::Var(a), SimpleOp::Var(b)) => a == b,
            (SimpleOp::Symbol(a), SimpleOp::Symbol(b)) => a == b,
            (SimpleOp::List, SimpleOp::List) => true,
            (SimpleOp::Add, SimpleOp::Add) => true,
            (SimpleOp::Const(a), SimpleOp::Const(b)) => a == b,
            (SimpleOp::Lib(a, c, d, e), SimpleOp::Lib(b, f, g, h)) => a == b && c.s_identical(f)
                && d.s_identical(g) && e == h,
            _ => false,
        }
    }

    fn discriminant_eq(&self, other: &Self) -> (r: bool) {
        match (self, other) {
            (SimpleOp::Apply, SimpleOp::Apply) => true,
            (SimpleOp::Lambda, SimpleOp::Lambda) => true,
            (SimpleOp::LibVar(a), SimpleOp::LibVar(b)) => a.0 == b.0,
            (SimpleOp::Var(a), SimpleOp::Var(b)) => a.0 == b.0,
            (SimpleOp::Symbol(a), SimpleOp::Symbol(b)) => same_symbol(a, b),
            (SimpleOp::List, SimpleOp::List) => true,
            (SimpleOp::Add, SimpleOp::Add) => true,
            (SimpleOp::Const(a), SimpleOp::Const(b)) => *a == *b,
            (SimpleOp::Lib(a, c, d, e), SimpleOp::Lib(b, f, g, h)) => a.0 == b.0 && c.identical(*f)
                && d.identical(*g) && *e == *h,
            _ => false,
        }
    }
}

impl<N: Number> Identical for SimpleOp<N> {
    open spec fn s_identical(&self, other: &Self) -> bool {
        self.s_discriminant_eq(other)
    }

    proof fn identical_are_equal(a: Self, b: Self) {
        match (a, b) {
            (SimpleOp::Lib(_, c, d, _), SimpleOp::Lib(_, f, g, _)) => {
                N::identical_are_equal(c, f);
                N::identical_are_equal(d, g);
            },
            _ => {},
        }
    }

    fn identical(&self, other: &Self) -> (r: bool) {
        self.discriminant_eq(other)
    }
}

impl<N: Number> Arity for SimpleOp<N> {
    open spec fn s_min_arity(&self) -> usize {
        match *self {
            SimpleOp::Var(_) | SimpleOp::LibVar(_) | SimpleOp::Symbol(_) | SimpleOp::Const(_)
            | SimpleOp::List => 0,
            SimpleOp::Lambda => 1,
            SimpleOp::Apply | SimpleOp::Lib(_, _, _, _) | SimpleOp::Add => 2,
        }
    }

    open spec fn s_max_arity(&self) -> Option<usize> {
        match *self {
            SimpleOp::Var(_) | SimpleOp::LibVar(_) | SimpleOp::Symbol(_) | SimpleOp::Const(_) => {
                Some(0)
            },
            SimpleOp::Lambda => Some(1),
            SimpleOp::Lib(_, _, _, _) | SimpleOp::Add => Some(2),
            _ => None,
        }
    }

    fn min_arity(&self) -> (r: usize) {
        match self {
            SimpleOp::Var(_) | SimpleOp::LibVar(_) | SimpleOp::Symbol(_) | SimpleOp::Const(_)
            | SimpleOp::List => 0,
            SimpleOp::Lambda => 1,
            SimpleOp::Apply | SimpleOp::Lib(_, _, _, _) | SimpleOp::Add => 2,
        }
    }

    fn max_arity(&self) -> (r: Option<usize>) {
        match self {
            SimpleOp::Var(_) | SimpleOp::LibVar(_) | SimpleOp::Symbol(_) | SimpleOp::Const(_) => {
                Some(0)
            },
            SimpleOp::Lambda => Some(1),
            SimpleOp::Lib(_, _, _, _) | SimpleOp::Add => Some(2),
            _ => None,
        }
    }
}

impl<N: Number> Teachable<N> for SimpleOp<N> {
    open spec fn s_operation(b: BindingExpr<(), N>) -> Self {
        match b {
            BindingExpr::Lambda(_) => SimpleOp::Lambda,
            BindingExpr::Apply(_, _) => SimpleOp::Apply,
            BindingExpr::Var(index) => SimpleOp::Var(index),
            BindingExpr::Lib(id, _, _, lat_cpu, lat_acc, area) => SimpleOp::Lib(
                id,
                lat_cpu,
                lat_acc,
                area,
            ),
            BindingExpr::LibVar(id) => SimpleOp::LibVar(id),
        }
    }

    open spec fn s_construct(&self, args: nat) -> Option<BindingExpr<(), N>> {
        match *self {
            SimpleOp::Lambda => if args == 1 {
                Some(BindingExpr::Lambda(()))
            } else {
                None
            },
            SimpleOp::Apply => if args == 2 {
                Some(BindingExpr::Apply((), ()))
            } else {
                None
            },
            SimpleOp::Var(index) => if args == 0 {
                Some(BindingExpr::Var(index))
            } else {
                None
            },
            SimpleOp::Lib(id, lat_cpu, lat_acc, area) => if args == 2 {
                Some(BindingExpr::Lib(id, (), (), lat_cpu, lat_acc, area))
            } else {
                None
            },
            SimpleOp::LibVar(id) => if args == 0 {
                Some(BindingExpr::LibVar(id))
            } else {
                None
            },
            _ => None,
        }
    }

    open spec fn s_list() -> Self {
        SimpleOp::List
    }

    proof fn construct_reads_back(b: BindingExpr<(), N>) {
        match b {
            BindingExpr::Lambda(u) => {
                assert(u == ());
            },
            BindingExpr::Apply(u, v) => {
                assert(u == () && v == ());
            },
            BindingExpr::Lib(_, u, v, _, _, _) => {
                assert(u == () && v == ());
            },
            _ => {},
        }
    }

    proof fn construct_parts(op: Self) {
    }

    fn from_binding_expr<T>(binding_expr: BindingExpr<T, N>) -> (r: AstNode<Self, T>) {
        match binding_expr {
            BindingExpr::Lambda(body) => {
                let r = AstNode::new(SimpleOp::Lambda, vec![body]);
                assert(r@.args =~= seq![body]);
                r
            },
            BindingExpr::Apply(fun, arg) => {
                let r = AstNode::new(SimpleOp::Apply, vec![fun, arg]);
                assert(r@.args =~= seq![fun, arg]);
                r
            },
            BindingExpr::Var(index) => AstNode::leaf(SimpleOp::Var(index)),
            BindingExpr::Lib(id, value, body, lat_cpu, lat_acc, area) => {
                let r = AstNode::new(
                    SimpleOp::Lib(id, lat_cpu, lat_acc, area),
                    vec![value, body],
                );
                assert(r@.args =~= seq![value, body]);
                r
            },
            BindingExpr::LibVar(id) => AstNode::leaf(SimpleOp::LibVar(id)),
        }
    }

    fn as_binding_expr<T>(node: &AstNode<Self, T>) -> (r: Option<BindingExpr<&T, N>>) {
        let args: &Vec<T> = &node.args;
        match node.operation {
            SimpleOp::Lambda => if args.len() == 1 {
                Some(BindingExpr::Lambda(&args[0]))
            } else {
                None
            },
            SimpleOp::Apply => if args.len() == 2 {
                Some(BindingExpr::Apply(&args[0], &args[1]))
            } else {
                None
            },
            SimpleOp::Var(index) => if args.len() == 0 {
                Some(BindingExpr::Var(index))
            } else {
                None
            },
            SimpleOp::Lib(id, lat_cpu, lat_acc, area) => if args.len() == 2 {
                Some(BindingExpr::Lib(id, &args[0], &args[1], lat_cpu, lat_acc, area))
            } else {
                None
            },
            SimpleOp::LibVar(id) => if args.len() == 0 {
                Some(BindingExpr::LibVar(id))
            } else {
                None
            },
            _ => None,
        }
    }

    fn list() -> (r: Self) {
        SimpleOp::List
    }
}

impl<N: Number> Printable for SimpleOp<N> {
    open spec fn s_precedence(&self) -> Precedence {
        100
    }

    open spec fn s_layout(&self, args: nat) -> LayoutView {
        match *self {
            SimpleOp::Var(_) | SimpleOp::LibVar(_) | SimpleOp::Lambda | SimpleOp::Lib(_, _, _, _)
            | SimpleOp::Apply => word_view("<ERROR! binding-expr>"@),
            SimpleOp::List => LayoutView {
                before: "["@,
                pieces: Seq::empty(),
                after: "]"@,
                args: true,
                sep: ","@,
                indent: true,
                breaks: Breaks::Always,
                context: Some(0),
            },
            SimpleOp::Const(_) | SimpleOp::Symbol(_) => if args == 0 {
                word_view(self.s_text())
            } else {
                word_view(misused(*self, args))
            },
            SimpleOp::Add => if args == 2 {
                LayoutView {
                    before: "add "@,
                    pieces: Seq::empty(),
                    after: ""@,
                    args: true,
                    sep: " "@,
                    indent: true,
                    breaks: Breaks::Always,
                    context: None,
                }
            } else {
                word_view(misused(*self, args))
            },
        }
    }

    fn precedence(&self) -> (r: Precedence) {
        100
    }

    fn layout(&self, args: usize) -> (r: Layout) {
        match self {
            SimpleOp::Var(_) | SimpleOp::LibVar(_) | SimpleOp::Lambda | SimpleOp::Lib(_, _, _, _)
            | SimpleOp::Apply => Layout::word("<ERROR! binding-expr>".to_owned()),
            SimpleOp::List => Layout {
                before: "[".to_owned(),
                pieces: Vec::new(),
                after: "]".to_owned(),
                args: true,
                sep: ",".to_owned(),
                indent: true,
                breaks: Breaks::Always,
                context: Some(0),
            },
            SimpleOp::Const(_) | SimpleOp::Symbol(_) => if args == 0 {
                Layout::word(self.to_text())
            } else {
                Layout::word(misuse(self, args))
            },
            SimpleOp::Add => if args == 2 {
                Layout {
                    before: "add ".to_owned(),
                    pieces: Vec::new(),
                    after: "".to_owned(),
                    args: true,
                    sep: " ".to_owned(),
                    indent: true,
                    breaks: Breaks::Always,
                    context: None,
                }
            } else {
                Layout::word(misuse(self, args))
            },
        }
    }
}

/// What is printed for an operation with a wrong number of arguments.
pub open spec fn misused<N: Number>(op: SimpleOp<N>, args: nat) -> Seq<char> {
    "<ERROR! "@ + op.s_text() + " with "@ + decimal(args) + " args>"@
}

fn misuse<N: Number>(op: &SimpleOp<N>, args: usize) -> (r: String)
    ensures
        r@ == misused(*op, args as nat),
{
    let mut s: String = "<ERROR! ".to_owned();
    s.append(op.to_text().as_str());
    s.append(" with ");
    s.append(decimal_text(args).as_str());
    s.append(" args>");
    s
}

impl<N: Number, LA, LD> Schedulable<N, LA, LD> for SimpleOp<N> {
    open spec fn s_delay(node: NodeView<Self>, ld: LD, args: Seq<NodeView<Self>>) -> usize {
        if node.operation is Add {
            6
        } else {
            0
        }
    }

    open spec fn s_area(node: NodeView<Self>, la: LA, args: Seq<NodeView<Self>>) -> usize {
        if node.operation is Add {
            1
        } else {
            0
        }
    }

    open spec fn s_latency(node: NodeView<Self>) -> usize {
        0
    }

    open spec fn s_latency_cpu(node: NodeView<Self>, bb_query: QueryView<N>) -> N {
        if node.operation is Add {
            N::s_count(1)
        } else {
            N::s_zero()
        }
    }

    fn op_delay(node: &AstNode<Self>, ld: &LD, args: &Vec<AstNode<Self>>) -> (r: usize) {
        match node.operation {
            SimpleOp::Add => 6,
            _ => 0,
        }
    }

    fn op_area(node: &AstNode<Self>, la: &LA, args: &Vec<AstNode<Self>>) -> (r: usize) {
        match node.operation {
            SimpleOp::Add => 1,
            _ => 0,
        }
    }

    fn op_latency(node: &AstNode<Self>) -> (r: usize) {
        0
    }

    fn op_latency_cpu(node: &AstNode<Self>, bb_query: &BBQuery<N>) -> (r: N) {
        match node.operation {
            SimpleOp::Add => N::count(1),
            _ => N::zero(),
        }
    }
}

impl<N: Number> OperationInfo<N> for SimpleOp<N> {
    open spec fn s_bbs_info(&self) -> Seq<Seq<char>> {
        Seq::empty()
    }

    open spec fn s_is_op(&self) -> bool {
        self is Add
    }

    open spec fn s_is_mem(&self) -> bool {
        false
    }

    open spec fn s_is_dowhile(&self) -> bool {
        false
    }

    open spec fn s_is_vector_op(&self) -> bool {
        false
    }

    open spec fn s_is_get_from_vec(&self) -> bool {
        false
    }

    open spec fn s_vec_len(&self) -> usize {
        1
    }

    open spec fn s_is_lib(&self) -> bool {
        self is Lib
    }

    open spec fn s_libid(&self) -> usize {
        match *self {
            SimpleOp::Lib(id, _, _, _) => id.0,
            _ => 0,
        }
    }

    open spec fn s_const(&self) -> Option<(i64, u32)> {
        match *self {
            SimpleOp::Const(c) => Some((c, 0)),
            _ => None,
        }
    }

    open spec fn s_is_arithmetic(&self) -> bool {
        self is Add
    }

    open spec fn s_makes_const(made: Self, value: (i64, u32)) -> bool {
        made == SimpleOp::<N>::Const(value.0)
    }

    open spec fn s_makes_rule_var(made: Self, name: Seq<char>) -> bool {
        made matches SimpleOp::Symbol(s) && symbol_name(s) == name
    }

    open spec fn s_retyped(&self, after: Self, result_ty: Seq<Seq<char>>) -> bool {
        after == *self
    }

    open spec fn s_moved(&self, after: Self, bbs: Seq<Seq<char>>) -> bool {
        after == *self
    }

    open spec fn s_execution_count(&self, bb_query: QueryView<N>) -> N {
        N::s_count(1)
    }

    open spec fn s_debug(&self) -> Seq<char> {
        self.s_text()
    }

    fn get_full_info(&self) -> (r: String)
        ensures
            r@ == self.s_text(),
    {
        self.to_text()
    }

    fn is_commutative(&self) -> (r: bool)
        ensures
            r == (self is Add),
    {
        match self {
            SimpleOp::Add => true,
            _ => false,
        }
    }

    fn is_dowhile(&self) -> (r: bool) {
        false
    }

    fn is_liblearn_banned_op(&self) -> (r: bool)
        ensures
            r == (self is Lib || self is LibVar),
    {
        self.is_lib_op()
    }

    fn is_lib(&self) -> (r: bool) {
        match self {
            SimpleOp::Lib(_, _, _, _) => true,
            _ => false,
        }
    }

    fn is_list_op(&self) -> (r: bool)
        ensures
            r == (self is List),
    {
        match self {
            SimpleOp::List => true,
            _ => false,
        }
    }

    fn is_lib_op(&self) -> (r: bool)
        ensures
            r == (self is Lib || self is LibVar),
    {
        match self {
            SimpleOp::Lib(_, _, _, _) | SimpleOp::LibVar(_) => true,
            _ => false,
        }
    }

    fn get_libid(&self) -> (r: usize) {
        match self {
            SimpleOp::Lib(id, _, _, _) => id.0,
            _ => 0,
        }
    }

    fn make_lib(id: LibId, lat_cpu: N, lat_acc: N, cost: usize) -> (r: Self)
        ensures
            r == SimpleOp::Lib(id, lat_cpu, lat_acc, cost),
    {
        SimpleOp::Lib(id, lat_cpu, lat_acc, cost)
    }

    fn make_vec(result_tys: Vec<String>, bbs: Vec<String>) -> (r: Self)
        ensures
            r == SimpleOp::<N>::List,
    {
        SimpleOp::List
    }

    fn make_get_from_vec(id: usize, result_tys: Vec<String>, bbs: Vec<String>) -> (r: Self)
        ensures
            r == SimpleOp::<N>::LibVar(LibId(id)),
    {
        SimpleOp::LibVar(LibId(id))
    }

    fn get_const(&self) -> (r: Option<(i64, u32)>) {
        match self {
            SimpleOp::Const(c) => Some((*c, 0)),
            _ => None,
        }
    }

    fn make_const(const_value: (i64, u32)) -> (r: Self) {
        SimpleOp::Const(const_value.0)
    }

    fn is_dummy(&self) -> (r: bool)
        ensures
            !r,
    {
        false
    }

    fn is_vector_op(&self) -> (r: bool) {
        false
    }

    fn get_simple_cost(&self) -> (r: N)
        ensures
            r == N::s_zero(),
    {
        N::zero()
    }

    fn make_gather(indices: &Vec<usize>, bbs: Vec<String>) -> (r: Self)
        ensures
            r == SimpleOp::<N>::List,
    {
        SimpleOp::List
    }

    fn make_shuffle(indices: &Vec<usize>, bbs: Vec<String>) -> (r: Self)
        ensures
            r == SimpleOp::<N>::List,
    {
        SimpleOp::List
    }

    fn get_bbs_info(&self) -> (r: Vec<String>) {
        let r: Vec<String> = Vec::new();
        assert(texts(r@) =~= Seq::empty());
        r
    }

    fn set_result_type(&mut self, result_ty: Vec<String>) {
    }

    fn get_vec_len(&self) -> (r: usize) {
        1
    }

    fn make_op_pack(ops: Vec<String>, bbs: Vec<String>) -> (r: Self)
        ensures
            r == SimpleOp::<N>::List,
    {
        SimpleOp::List
    }

    fn make_op_select(idx: usize) -> (r: Self)
        ensures
            r == SimpleOp::<N>::LibVar(LibId(idx)),
    {
        SimpleOp::LibVar(LibId(idx))
    }

    fn make_rule_var(name: String) -> (r: Self) {
        SimpleOp::Symbol(intern(name.as_str()))
    }

    fn make_opmask() -> (r: Self)
        ensures
            r == SimpleOp::<N>::List,
    {
        SimpleOp::List
    }

    fn get_bitwidth(&self) -> (r: usize)
        ensures
            r == 0,
    {
        0
    }

    fn make_bitwidth(&mut self, width: usize)
        ensures
            *final(self) == *old(self),
    {
    }

    fn set_bbs_info(&mut self, bbs: Vec<String>) {
    }

    fn is_arithmetic(&self) -> (r: bool) {
        match self {
            SimpleOp::Add => true,
            _ => false,
        }
    }

    fn is_op(&self) -> (r: bool) {
        match self {
            SimpleOp::Add => true,
            _ => false,
        }
    }

    fn is_get_from_vec(&self) -> (r: bool) {
        false
    }

    fn is_mem(&self) -> (r: bool) {
        false
    }

    fn op_execution_count(&self, bb_query: &BBQuery<N>) -> (r: N) {
        N::count(1)
    }

    fn genericize(&mut self)
        ensures
            *final(self) == *old(self),
    {
    }

    fn debug_text(&self) -> (r: String) {
        self.to_text()
    }
}

/// The types of the language.
#[derive(Clone, Copy, Debug, PartialOrd, Ord, Hash)]
pub enum SimpleType {
    /// An integer of a width in bits.
    IntT(usize),
    Unknown,
}

impl PartialEq for SimpleType {
    fn eq(&self, other: &Self) -> (r: bool) {
        match (self, other) {
            (SimpleType::IntT(a), SimpleType::IntT(b)) => *a == *b,
            (SimpleType::Unknown, SimpleType::Unknown) => true,
            _ => false,
        }
    }
}

impl vstd::std_specs::cmp::PartialEqSpecImpl for SimpleType {
    open spec fn obeys_eq_spec() -> bool {
        true
    }

    open spec fn eq_spec(&self, other: &Self) -> bool {
        *self == *other
    }
}

impl Eq for SimpleType {

}

impl Default for SimpleType {
    fn default() -> (r: Self)
        ensures
            r == SimpleType::Unknown,
    {
        SimpleType::Unknown
    }
}

impl Duplicate for SimpleType {
    fn duplicate(&self) -> (r: Self) {
        *self
    }
}

impl ReadType for SimpleType {
    open spec fn s_read_type(s: Seq<char>) -> Option<Self> {
        Some(
            if s == "int"@ {
                SimpleType::IntT(0)
            } else {
                SimpleType::Unknown
            },
        )
    }

    fn read_type(s: &str) -> (r: Option<Self>) {
        Some(SimpleType::parse(s))
    }
}

impl Shown for SimpleType {
    open spec fn s_shown(&self) -> Seq<char> {
        match *self {
            SimpleType::IntT(w) => "int<"@ + decimal(w as nat) + ">"@,
            SimpleType::Unknown => "Unknown"@,
        }
    }

    fn shown(&self) -> (r: String) {
        match self {
            SimpleType::IntT(w) => {
                let mut s: String = "int<".to_owned();
                s.append(decimal_text(*w).as_str());
                s.append(">");
                s
            },
            SimpleType::Unknown => "Unknown".to_owned(),
        }
    }
}

impl TypeAnalysis for SimpleType {

}

impl SimpleType {
    /// Reads a type: an integer of no width, or an unknown type.
    pub fn parse(input: &str) -> (r: Self)
        ensures
            r == if input@ == "int"@ {
                SimpleType::IntT(0)
            } else {
                SimpleType::Unknown
            },
    {
        if same_text(input, "int") {
            SimpleType::IntT(0)
        } else {
            SimpleType::Unknown
        }
    }

    /// The width of the type, none where it is not known.
    pub open spec fn s_width(self) -> usize {
        match self {
            SimpleType::IntT(w) => w,
            SimpleType::Unknown => 0,
        }
    }

    /// The wider of two types. A type of no width is unknown.
    pub open spec fn wider(a: SimpleType, b: SimpleType) -> SimpleType {
        let w = if a.s_width() < b.s_width() {
            b.s_width()
        } else {
            a.s_width()
        };
        if w == 0 {
            SimpleType::Unknown
        } else {
            SimpleType::IntT(w)
        }
    }

    fn width_of(&self) -> (r: usize)
        ensures
            r == self.s_width(),
    {
        match self {
            SimpleType::IntT(w) => *w,
            SimpleType::Unknown => 0,
        }
    }
}

/// Uniting types is commutative, associative and idempotent on known types,
/// and an unknown type adds nothing.
pub proof fn law_wider_type(a: SimpleType, b: SimpleType, c: SimpleType)
    ensures
        SimpleType::wider(a, b) == SimpleType::wider(b, a),
        SimpleType::wider(SimpleType::wider(a, b), c) == SimpleType::wider(
            a,
            SimpleType::wider(b, c),
        ),
        a.s_width() > 0 ==> SimpleType::wider(a, a) == a,
        a.s_width() > 0 ==> SimpleType::wider(a, SimpleType::Unknown) == a,
{
}

impl<N: Number> TypeInfo<SimpleType> for SimpleOp<N> {
    open spec fn s_rtype(node: NodeView<Self>, child_types: Seq<SimpleType>) -> SimpleType {
        SimpleType::Unknown
    }

    open spec fn s_merge_types(a: SimpleType, b: SimpleType) -> SimpleType {
        SimpleType::wider(a, b)
    }

    open spec fn s_merge_types_neglecting_width(a: SimpleType, b: SimpleType) -> SimpleType {
        SimpleType::wider(a, b)
    }

    open spec fn s_can_merge_types(a: SimpleType, b: SimpleType) -> bool {
        a.s_width() == b.s_width() || a.s_width() == 0 || b.s_width() == 0
    }

    fn get_rtype(node: &AstNode<Self>, child_types: &Vec<SimpleType>) -> (r: SimpleType) {
        SimpleType::Unknown
    }

    fn merge_types(a: &SimpleType, b: &SimpleType) -> (r: SimpleType) {
        let x: usize = a.width_of();
        let y: usize = b.width_of();
        if x == 0 && y == 0 {
            SimpleType::Unknown
        } else if x == 0 {
            SimpleType::IntT(y)
        } else if y == 0 {
            SimpleType::IntT(x)
        } else if x < y {
            SimpleType::IntT(y)
        } else {
            SimpleType::IntT(x)
        }
    }

    fn merge_types_neglecting_width(a: &SimpleType, b: &SimpleType) -> (r: SimpleType) {
        let x: usize = a.width_of();
        let y: usize = b.width_of();
        if x == 0 && y == 0 {
            SimpleType::Unknown
        } else if x < y {
            SimpleType::IntT(y)
        } else {
            SimpleType::IntT(x)
        }
    }

    fn can_merge_types(a: &SimpleType, b: &SimpleType) -> (r: bool) {
        let x: usize = a.width_of();
        let y: usize = b.width_of();
        x == y || x == 0 || y == 0
    }
}

} // verus!
