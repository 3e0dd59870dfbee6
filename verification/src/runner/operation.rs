//! What library learning asks of the operations of a language.
use crate::bb_query::{BBQuery, QueryView};
use crate::learn::LibId;
use crate::number::Number;
use crate::text::texts;
use vstd::prelude::*;

verus! {

/// What library learning asks of an operation.
pub trait OperationInfo<N: Number>: Sized {
    /// The basic blocks of the operation.
    open spec fn s_bbs_info(&self) -> Seq<Seq<char>> {
        arbitrary()
    }

    /// Whether the operation takes time.
    open spec fn s_is_op(&self) -> bool {
        arbitrary()
    }

    /// Whether the operation accesses memory.
    open spec fn s_is_mem(&self) -> bool {
        arbitrary()
    }

    /// Whether the operation is a loop.
    open spec fn s_is_dowhile(&self) -> bool {
        arbitrary()
    }

    /// Whether the operation works on vectors.
    open spec fn s_is_vector_op(&self) -> bool {
        arbitrary()
    }

    /// Whether the operation takes a lane out of a vector.
    open spec fn s_is_get_from_vec(&self) -> bool {
        arbitrary()
    }

    /// The number of lanes.
    open spec fn s_vec_len(&self) -> usize {
        arbitrary()
    }

    /// Whether the operation defines a library function.
    open spec fn s_is_lib(&self) -> bool {
        arbitrary()
    }

    /// The library function that the operation defines.
    open spec fn s_libid(&self) -> usize {
        arbitrary()
    }

    /// The value and the width of a constant.
    open spec fn s_const(&self) -> Option<(i64, u32)> {
        arbitrary()
    }

    /// Whether the operation is arithmetic.
    open spec fn s_is_arithmetic(&self) -> bool {
        arbitrary()
    }

    /// Whether `made` is the constant of a value and a width.
    open spec fn s_makes_const(made: Self, value: (i64, u32)) -> bool {
        arbitrary()
    }

    /// Whether `made` is the pattern variable of a name.
    open spec fn s_makes_rule_var(made: Self, name: Seq<char>) -> bool {
        arbitrary()
    }

    /// Whether `after` is this operation with other result types.
    open spec fn s_retyped(&self, after: Self, result_ty: Seq<Seq<char>>) -> bool {
        arbitrary()
    }

    /// Whether `after` is this operation in other basic blocks.
    open spec fn s_moved(&self, after: Self, bbs: Seq<Seq<char>>) -> bool {
        arbitrary()
    }

    /// How often the operation is executed.
    open spec fn s_execution_count(&self, bb_query: QueryView<N>) -> N {
        arbitrary()
    }

    /// The operation as a text.
    open spec fn s_debug(&self) -> Seq<char> {
        arbitrary()
    }

    /// The operation with all its particulars, as a text.
    fn get_full_info(&self) -> String;

    /// Whether the operation may swap its arguments.
    fn is_commutative(&self) -> bool;

    fn is_dowhile(&self) -> (r: bool)
        ensures
            r == self.s_is_dowhile(),
    ;

    /// Whether the operation must not become part of a library function.
    fn is_liblearn_banned_op(&self) -> bool;

    fn is_lib(&self) -> (r: bool)
        ensures
            r == self.s_is_lib(),
    ;

    fn is_list_op(&self) -> bool;

    /// Whether the operation defines or names a library function.
    fn is_lib_op(&self) -> bool;

    fn get_libid(&self) -> (r: usize)
        ensures
            r == self.s_libid(),
    ;

    /// Makes a definition of a library function.
    fn make_lib(id: LibId, lat_cpu: N, lat_acc: N, cost: usize) -> Self;

    /// Makes a vector.
    fn make_vec(result_tys: Vec<String>, bbs: Vec<String>) -> Self;

    /// Makes an operation that takes a lane out of a vector.
    fn make_get_from_vec(id: usize, result_tys: Vec<String>, bbs: Vec<String>) -> Self;

    fn get_const(&self) -> (r: Option<(i64, u32)>)
        ensures
            r == self.s_const(),
    ;

    fn make_const(const_value: (i64, u32)) -> (r: Self)
        ensures
            Self::s_makes_const(r, const_value),
    ;

    fn is_dummy(&self) -> bool;

    fn is_vector_op(&self) -> (r: bool)
        ensures
            r == self.s_is_vector_op(),
    ;

    fn get_simple_cost(&self) -> N;

    /// Whether the operation lists its arguments in no particular order.
    fn is_vec(&self) -> (r: bool)
        default_ensures
            !r,
    {
        false
    }

    fn make_gather(indices: &Vec<usize>, bbs: Vec<String>) -> Self;

    fn make_shuffle(indices: &Vec<usize>, bbs: Vec<String>) -> Self;

    fn get_bbs_info(&self) -> (r: Vec<String>)
        ensures
            texts(r@) == self.s_bbs_info(),
    ;

    /// The result types, none where they are not known.
    fn get_result_type(&self) -> (r: Vec<String>)
        default_ensures
            r@.len() == 0,
    {
        Vec::new()
    }

    fn set_result_type(&mut self, result_ty: Vec<String>)
        ensures
            old(self).s_retyped(*final(self), texts(result_ty@)),
    ;

    fn get_vec_len(&self) -> (r: usize)
        ensures
            r == self.s_vec_len(),
    ;

    /// Makes a pack of operations.
    fn make_op_pack(ops: Vec<String>, bbs: Vec<String>) -> Self;

    /// The hardware that an operation of a pack shares.
    fn op_pack_area_family(op: &str) -> (r: &'static str)
        default_ensures
            r@ == "other"@,
    {
        "other"
    }

    /// Makes an operation that selects from a pack.
    fn make_op_select(idx: usize) -> Self;

    fn make_rule_var(name: String) -> (r: Self)
        ensures
            Self::s_makes_rule_var(r, name@),
    ;

    fn make_opmask() -> Self;

    fn is_opmask(&self) -> (r: bool)
        default_ensures
            !r,
    {
        false
    }

    fn is_rule_var(&self) -> (r: bool)
        default_ensures
            !r,
    {
        false
    }

    fn get_bitwidth(&self) -> usize;

    fn make_bitwidth(&mut self, width: usize);

    fn is_var(&self) -> (r: bool)
        default_ensures
            !r,
    {
        false
    }

    fn set_bbs_info(&mut self, bbs: Vec<String>)
        ensures
            old(self).s_moved(*final(self), texts(bbs@)),
    ;

    fn is_arithmetic(&self) -> (r: bool)
        ensures
            r == self.s_is_arithmetic(),
    ;

    fn is_op(&self) -> (r: bool)
        ensures
            r == self.s_is_op(),
    ;

    fn is_tuple(&self) -> (r: bool)
        default_ensures
            !r,
    {
        false
    }

    fn is_get_from_arg(&self) -> (r: bool)
        default_ensures
            !r,
    {
        false
    }

    fn is_get_from_vec(&self) -> (r: bool)
        ensures
            r == self.s_is_get_from_vec(),
    ;

    fn is_external_arg(&self) -> (r: bool)
        default_ensures
            !r,
    {
        false
    }

    /// Whether an operation with these operations as arguments is worth
    /// learning.
    fn is_useful_expr(&self, children_ops: &[Self]) -> (r: bool)
        default_ensures
            r,
    {
        true
    }

    fn is_mem(&self) -> (r: bool)
        ensures
            r == self.s_is_mem(),
    ;

    /// Whether the two operations may be generalized into one: both are
    /// arithmetic and neither accesses memory.
    fn meta_au_compatible_with(&self, other: &Self) -> (r: bool)
        default_ensures
            r == (self.s_is_arithmetic() && other.s_is_arithmetic() && !self.s_is_mem()
                && !other.s_is_mem()),
    {
        self.is_arithmetic() && other.is_arithmetic() && !self.is_mem() && !other.is_mem()
    }

    /// A coarser identity of the operation for structural hashing.
    fn meta_au_hash_key(&self) -> (r: Option<String>)
        default_ensures
            r is None,
    {
        None
    }

    fn op_execution_count(&self, bb_query: &BBQuery<N>) -> (r: N)
        requires
            bb_query.wf(),
        ensures
            r == self.s_execution_count(bb_query@),
    ;

    /// Drops the particulars that would keep operations apart in learning.
    fn genericize(&mut self);

    /// The operation as a text.
    fn debug_text(&self) -> (r: String)
        ensures
            r@ == self.s_debug(),
    ;
}

} // verus!
