//! Nodes of abstract syntax trees.
pub mod conversion_laws;
pub mod expr;
pub mod fill_laws;
pub mod layout_laws;
pub mod match_laws;
pub mod matching;
pub mod partial_expr;
pub mod partial_laws;
pub mod pretty;
pub mod print_expr;
pub mod print_laws;

use std::sync::Arc;
use vstd::prelude::*;

verus! {

/// Operations that can be copied.
pub trait Duplicate: Sized {
    /// The same value once more.
    fn duplicate(&self) -> (r: Self)
        ensures
            r == *self,
    ;
}

impl Duplicate for String {
    fn duplicate(&self) -> (r: Self) {
        self.clone()
    }
}

impl<T> Duplicate for Arc<T> {
    fn duplicate(&self) -> (r: Self) {
        self.clone()
    }
}

impl Duplicate for usize {
    fn duplicate(&self) -> (r: Self) {
        *self
    }
}

/// Operations that can be told apart.
pub trait Identical: Sized {
    /// Whether two operations are told to be the same.
    open spec fn s_identical(&self, other: &Self) -> bool {
        arbitrary()
    }

    /// Operations that are told to be the same are equal.
    proof fn identical_are_equal(a: Self, b: Self)
        requires
            a.s_identical(&b),
        ensures
            a == b,
    ;

    fn identical(&self, other: &Self) -> (r: bool)
        ensures
            r == self.s_identical(other),
    ;
}

/// Operations that take a bounded number of arguments.
pub trait Arity: Sized {
    /// The fewest arguments that the operation takes.
    open spec fn s_min_arity(&self) -> usize {
        arbitrary()
    }

    /// The most arguments that the operation takes, or `None` where there is
    /// no limit.
    open spec fn s_max_arity(&self) -> Option<usize> {
        arbitrary()
    }

    fn min_arity(&self) -> (r: usize)
        ensures
            r == self.s_min_arity(),
    ;

    fn max_arity(&self) -> (r: Option<usize>)
        ensures
            r == self.s_max_arity(),
    ;
}

/// Whether an operation takes `n` arguments.
pub open spec fn takes<Op: Arity>(operation: Op, n: int) -> bool {
    operation.s_min_arity() <= n && match operation.s_max_arity() {
        Some(m) => n <= m,
        None => true,
    }
}

/// Whether an operation takes `n` arguments.
pub(crate) fn has_arity<Op: Arity>(operation: &Op, n: usize) -> (r: bool)
    ensures
        r == takes(*operation, n as int),
{
    operation.min_arity() <= n && match operation.max_arity() {
        Some(m) => n <= m,
        None => true,
    }
}

/// An operation with its arguments. Where the argument type is `usize`, an
/// argument names another node: by its index in a [`RecExpr`], or by the
/// identifier of its class.
///
/// [`RecExpr`]: crate::rec_expr::RecExpr
#[derive(Debug)]
pub struct AstNode<Op, T = usize> {
    pub operation: Op,
    pub args: Vec<T>,
}

/// The contents of an [`AstNode`].
#[verifier::ext_equal]
pub struct NodeView<Op, T = usize> {
    pub operation: Op,
    pub args: Seq<T>,
}

impl<Op, T> View for AstNode<Op, T> {
    type V = NodeView<Op, T>;

    open spec fn view(&self) -> NodeView<Op, T> {
        NodeView { operation: self.operation, args: self.args@ }
    }
}

/// The contents of each node.
pub open spec fn node_views<Op, T>(s: Seq<AstNode<Op, T>>) -> Seq<NodeView<Op, T>> {
    Seq::new(s.len(), |i: int| s[i]@)
}

impl<Op, T> AstNode<Op, T> {
    /// A node with an operation and its arguments.
    pub fn new(operation: Op, args: Vec<T>) -> (r: Self)
        ensures
            r@ == (NodeView { operation, args: args@ }),
    {
        AstNode { operation, args }
    }

    /// A node without arguments.
    pub fn leaf(operation: Op) -> (r: Self)
        ensures
            r@ == (NodeView { operation, args: Seq::<T>::empty() }),
    {
        AstNode { operation, args: Vec::new() }
    }

    pub fn operation(&self) -> (r: &Op)
        ensures
            *r == self@.operation,
    {
        &self.operation
    }

    pub fn operation_mut(&mut self) -> (r: &mut Op)
        ensures
            *r == old(self)@.operation,
            final(self)@ == (NodeView { operation: *final(r), args: old(self)@.args }),
    {
        &mut self.operation
    }

    pub fn args(&self) -> (r: &Vec<T>)
        ensures
            r@ == self@.args,
    {
        &self.args
    }

    /// Whether the node has no arguments.
    pub fn is_empty(&self) -> (r: bool)
        ensures
            r == (self@.args.len() == 0),
    {
        self.args.len() == 0
    }

    /// The operation and the arguments.
    pub fn as_parts(&self) -> (r: (&Op, &Vec<T>))
        ensures
            *r.0 == self@.operation,
            r.1@ == self@.args,
    {
        (&self.operation, &self.args)
    }

    /// The operation and the arguments, taken out of the node.
    pub fn into_parts(self) -> (r: (Op, Vec<T>))
        ensures
            r.0 == self@.operation,
            r.1@ == self@.args,
    {
        (self.operation, self.args)
    }
}

/// Why a node could not be made: the operation does not take that many
/// arguments.
#[derive(Debug)]
pub struct ArityError<Op> {
    pub operation: Op,
    pub actual: usize,
}

impl<Op: Arity, T> AstNode<Op, T> {
    /// A node with an operation and its arguments, or an error where the
    /// operation does not take that many.
    pub fn try_new(operation: Op, args: Vec<T>) -> (r: Result<Self, ArityError<Op>>)
        ensures
            match r {
                Ok(node) => takes(operation, args@.len() as int) && node@ == (NodeView {
                    operation,
                    args: args@,
                }),
                Err(e) => !takes(operation, args@.len() as int) && e.operation == operation
                    && e.actual == args@.len(),
            },
    {
        if has_arity(&operation, args.len()) {
            Ok(AstNode { operation, args })
        } else {
            let actual: usize = args.len();
            Err(ArityError { operation, actual })
        }
    }
}

impl<Op: Duplicate, T: Duplicate> AstNode<Op, T> {
    /// A second node with the same contents.
    pub fn duplicate(&self) -> (r: Self)
        ensures
            r@ == self@,
    {
        let mut args: Vec<T> = Vec::new();
        let n: usize = self.args.len();
        for i in 0..n
            invariant
                n == self.args@.len(),
                args@ == self.args@.take(i as int),
        {
            args.push(self.args[i].duplicate());
            assert(self.args@.take(i as int).push(self.args@[i as int]) =~= self.args@.take(i + 1));
        }
        assert(args@ =~= self.args@);
        AstNode { operation: self.operation.duplicate(), args }
    }
}

} // verus!
