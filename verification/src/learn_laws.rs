//! How matches are ordered, and what the types of nodes and operations are.
use crate::analysis::{types_merged, SimpleAnalysis, TypeSet};
use crate::ast_node::{AstNode, Duplicate, NodeView};
use crate::bb_query::QueryView;
use crate::egraph::EGraph;
use crate::extract::beam_pareto::TypeInfo;
use crate::learn::{ids_le, match_order};
use crate::number::Number;
use crate::runner::operation::OperationInfo;
use crate::schedule::Schedulable;
use crate::simple_lang::{SimpleOp, SimpleType};
use vstd::prelude::*;

verus! {

proof fn lemma_behind(p: Seq<usize>, a: Seq<usize>, b: Seq<usize>)
    ensures
        ids_le(p + a, p + b) == ids_le(a, b),
    decreases p.len(),
{
    if p.len() == 0 {
        assert(p + a =~= a);
        assert(p + b =~= b);
    } else {
        lemma_behind(p.drop_first(), a, b);
        assert((p + a).drop_first() =~= p.drop_first() + a);
        assert((p + b).drop_first() =~= p.drop_first() + b);
    }
}

/// The match with the smaller class comes first. Of two with the same class
/// the one comes first whose variables have the smaller class where they first
/// differ, or whose variables are the beginning of those of the other.
pub proof fn law_matches_by_class_first(
    a: (usize, Seq<usize>),
    b: (usize, Seq<usize>),
    same: Seq<usize>,
    x: usize,
    y: usize,
    rest_a: Seq<usize>,
    rest_b: Seq<usize>,
)
    ensures
        a.0 < b.0 ==> match_order()(a, b) && !match_order()(b, a),
        a.0 == b.0 && x < y && a.1 == same.push(x) + rest_a && b.1 == same.push(y) + rest_b
            ==> match_order()(a, b) && !match_order()(b, a),
        a.0 == b.0 && b.1 == a.1 + rest_b ==> match_order()(a, b),
{
    if a.0 == b.0 && x < y && a.1 == same.push(x) + rest_a && b.1 == same.push(y) + rest_b {
        let (s, t) = (seq![x] + rest_a, seq![y] + rest_b);
        assert(a.1 =~= same + s);
        assert(b.1 =~= same + t);
        lemma_behind(same, s, t);
        lemma_behind(same, t, s);
        assert(s[0] == x && t[0] == y);
    }
    if a.0 == b.0 && b.1 == a.1 + rest_b {
        lemma_behind(a.1, Seq::empty(), rest_b);
        assert(a.1 + Seq::<usize>::empty() =~= a.1);
    }
}

/// The types united one after the other.
pub open spec fn united<Op: TypeInfo<T>, T>(s: Seq<T>) -> T {
    s.drop_first().fold_left(s[0], |a: T, b: T| Op::s_merge_types(a, b))
}

proof fn lemma_united<Op: TypeInfo<T>, T>(s: Seq<T>, k: nat)
    requires
        1 <= k <= s.len(),
    ensures
        types_merged::<Op, T>(s, k) == s.subrange(1, k as int).fold_left(
            s[0],
            |a: T, b: T| Op::s_merge_types(a, b),
        ),
    decreases k,
{
    let t = s.subrange(1, k as int);
    if k > 1 {
        lemma_united::<Op, T>(s, (k - 1) as nat);
        assert(t.drop_last() =~= s.subrange(1, k - 1));
        assert(t.last() == s[k - 1]);
    }
}

/// A node has one type: the one that its operation gives for the types of its
/// arguments, where those that a class has are united.
pub proof fn law_type_of_a_node<Op: TypeInfo<T>, T: Duplicate>(
    analysis: &SimpleAnalysis,
    egraph: &EGraph<Op, TypeSet<T>>,
    node: &AstNode<Op>,
    r: TypeSet<T>,
)
    requires
        forall|j: int|
            0 <= j < node@.args.len() ==> egraph.class(
                #[trigger] node@.args[j],
            ).data.set@.len() > 0,
        call_ensures(SimpleAnalysis::make::<Op, T>, (analysis, egraph, node), r),
    ensures
        r.set@ == seq![
            Op::s_rtype(
                node@,
                Seq::new(
                    node@.args.len(),
                    |j: int| united::<Op, T>(egraph.class(node@.args[j]).data.set@),
                ),
            ),
        ],
{
    let types = Seq::new(
        node@.args.len(),
        |j: int| united::<Op, T>(egraph.class(node@.args[j]).data.set@),
    );
    assert forall|j: int| 0 <= j < node@.args.len() implies #[trigger] types[j]
        == crate::analysis::arg_types(*egraph, node@)[j] by {
        let s = egraph.class(node@.args[j]).data.set@;
        lemma_united::<Op, T>(s, s.len());
        assert(s.subrange(1, s.len() as int) =~= s.drop_first());
    }
    assert(types =~= crate::analysis::arg_types(*egraph, node@));
}

/// Additions alone take time and area: six units of delay, one of area, and a
/// cycle on the processor. No operation has a basic block, each is executed
/// once, and none works on memory, on vectors or in a loop.
pub proof fn law_additions_alone_cost<N: Number, LA, LD>(
    node: NodeView<SimpleOp<N>>,
    la: LA,
    ld: LD,
    args: Seq<NodeView<SimpleOp<N>>>,
    q: QueryView<N>,
)
    ensures
        ({
            let adds = node.operation == SimpleOp::<N>::Add;
            let delay = <SimpleOp<N> as Schedulable<N, LA, LD>>::s_delay(node, ld, args);
            let area = <SimpleOp<N> as Schedulable<N, LA, LD>>::s_area(node, la, args);
            let cycles = <SimpleOp<N> as Schedulable<N, LA, LD>>::s_latency_cpu(node, q);
            &&& delay == if adds {
                6usize
            } else {
                0
            }
            &&& area == if adds {
                1usize
            } else {
                0
            }
            &&& cycles == if adds {
                N::s_count(1)
            } else {
                N::s_zero()
            }
            &&& <SimpleOp<N> as Schedulable<N, LA, LD>>::s_latency(node) == 0
            &&& node.operation.s_is_op() == adds
            &&& node.operation.s_is_arithmetic() == adds
        }),
        node.operation.s_bbs_info().len() == 0,
        node.operation.s_execution_count(q) == N::s_count(1),
        !node.operation.s_is_mem(),
        !node.operation.s_is_vector_op(),
        !node.operation.s_is_dowhile(),
{
}

/// Two types can be united where they have the same width or one of them has
/// none, and the united type has the larger width of the two.
pub proof fn law_united_widths<N: Number>(a: SimpleType, b: SimpleType, x: usize, y: usize)
    requires
        a == SimpleType::IntT(x) || (a == SimpleType::Unknown && x == 0),
        b == SimpleType::IntT(y) || (b == SimpleType::Unknown && y == 0),
    ensures
        <SimpleOp<N> as TypeInfo<SimpleType>>::s_can_merge_types(a, b) <==> x == y || x == 0 || y
            == 0,
        ({
            let larger = if x < y {
                y
            } else {
                x
            };
            let united = if larger == 0 {
                SimpleType::Unknown
            } else {
                SimpleType::IntT(larger)
            };
            &&& <SimpleOp<N> as TypeInfo<SimpleType>>::s_merge_types(a, b) == united
            &&& <SimpleOp<N> as TypeInfo<SimpleType>>::s_merge_types_neglecting_width(a, b)
                == united
        }),
{
}

} // verus!
