//! Where a run goes next, and which nodes get types.
use crate::egraph::EClass;
use crate::extract::beam_pareto::ClassMatch;
use crate::number::Number;
use crate::runner::operation::OperationInfo;
use crate::runner::pareto::{class_typed, learn_from, typed, LearnFrom};
use crate::runner::session::{trying, Stage};
use vstd::prelude::*;

verus! {

/// Packs are learned from wherever they are asked for, vectors only where
/// packs are not, and expressions where neither is.
pub proof fn law_what_is_learned_from(vectorize: bool, packs: bool, r: LearnFrom)
    requires
        call_ensures(learn_from, (vectorize, packs), r),
    ensures
        r == LearnFrom::Packs <==> packs,
        r == LearnFrom::Vectors <==> vectorize && !packs,
        r == LearnFrom::Expressions <==> !vectorize && !packs,
{
}

/// The selections are tried from the first to the last, and then the run is
/// done.
pub proof fn law_every_selection_is_tried(i: usize, selections: nat)
    ensures
        i < selections ==> trying(i as int, selections) == Stage::Try(i),
        i >= selections ==> trying(i as int, selections) == Stage::Done,
{
}

/// A node that has no types of its own gets those of its class. One that has
/// types stays as it is, and so do the arguments of all of them.
pub proof fn law_missing_types_are_filled<Op: OperationInfo<N>, N: Number, D: ClassMatch>(
    before: EClass<Op, D>,
    after: EClass<Op, D>,
    n: int,
)
    requires
        class_typed::<Op, N, D>(before, after),
        0 <= n < before.nodes@.len(),
    ensures
        after.nodes@.len() == before.nodes@.len(),
        after.id == before.id,
        after.data == before.data,
        after.nodes@[n]@.args == before.nodes@[n]@.args,
        (forall|own: Vec<String>| #[trigger]
            call_ensures(Op::get_result_type, (&before.nodes@[n]@.operation,), own) ==> own@.len()
                == 0) ==> before.nodes@[n]@.operation.s_retyped(
            after.nodes@[n]@.operation,
            before.data.s_types(),
        ),
        (forall|own: Vec<String>| #[trigger]
            call_ensures(Op::get_result_type, (&before.nodes@[n]@.operation,), own) ==> own@.len()
                > 0) ==> after.nodes@[n]@.operation == before.nodes@[n]@.operation,
{
    assert(typed::<Op, N>(before.nodes@[n]@, after.nodes@[n]@, before.data.s_types()));
}

} // verus!
