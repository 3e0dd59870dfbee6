//! Constants of the same value and different widths.
use crate::ast_node::AstNode;
use crate::egraph::{EClass, EGraph};
use crate::id_map::id_among;
use crate::number::Number;
use crate::runner::operation::OperationInfo;
use vstd::prelude::*;

verus! {

/// A value that occurs as a constant: the classes that hold it, and the widths
/// that it does not occur with.
#[derive(Debug)]
pub struct ConstGroup {
    pub value: i64,
    pub classes: Vec<usize>,
    pub missing: Vec<u32>,
}

/// A constant in an e-graph: its value, its width and its class.
pub type ConstSite = (i64, u32, usize);

/// The constants of the first `n` nodes of a class.
pub open spec fn class_consts<Op: OperationInfo<N>, N: Number, D>(
    class: EClass<Op, D>,
    n: nat,
) -> Seq<ConstSite>
    decreases n,
{
    if n == 0 {
        Seq::empty()
    } else {
        let before = class_consts::<Op, N, D>(class, (n - 1) as nat);
        match class.nodes@[n - 1]@.operation.s_const() {
            Some((value, width)) => before.push((value, width, class.id)),
            None => before,
        }
    }
}

/// The constants of the first `k` classes.
pub open spec fn all_consts<Op: OperationInfo<N>, N: Number, D>(g: EGraph<Op, D>, k: nat) -> Seq<
    ConstSite,
>
    decreases k,
{
    if k == 0 {
        Seq::empty()
    } else {
        all_consts::<Op, N, D>(g, (k - 1) as nat) + class_consts::<Op, N, D>(
            g.classes@[k - 1],
            g.classes@[k - 1].nodes@.len(),
        )
    }
}

/// The constants of an e-graph.
pub fn find_consts<Op: OperationInfo<N>, N: Number, D>(egraph: &EGraph<Op, D>) -> (r: Vec<
    ConstSite,
>)
    ensures
        r@ == all_consts::<Op, N, D>(*egraph, egraph.classes@.len()),
{
    let mut r: Vec<ConstSite> = Vec::new();
    let count: usize = egraph.classes.len();
    for c in 0..count
        invariant
            count == egraph.classes@.len(),
            r@ == all_consts::<Op, N, D>(*egraph, c as nat),
    {
        let class: &EClass<Op, D> = &egraph.classes[c];
        let ghost start = r@;
        let n: usize = class.nodes.len();
        assert(r@ =~= start + class_consts::<Op, N, D>(*class, 0));
        for i in 0..n
            invariant
                n == class.nodes@.len(),
                r@ == start + class_consts::<Op, N, D>(*class, i as nat),
        {
            let ghost before = class_consts::<Op, N, D>(*class, i as nat);
            let node: &AstNode<Op> = &class.nodes[i];
            if let Some((value, width)) = node.operation.get_const() {
                r.push((value, width, class.id));
                assert(r@ =~= start + before.push((value, width, class.id)));
            }
        }
    }
    r
}

/// Whether a value occurs.
pub open spec fn has_value(s: Seq<ConstSite>, value: i64) -> bool {
    exists|i: int| 0 <= i < s.len() && (#[trigger] s[i]).0 == value
}

/// Whether a value occurs with a width.
pub open spec fn has_width(s: Seq<ConstSite>, value: i64, width: u32) -> bool {
    exists|i: int| 0 <= i < s.len() && (#[trigger] s[i]).0 == value && s[i].1 == width
}

/// Whether a class holds a value.
pub open spec fn has_class(s: Seq<ConstSite>, value: i64, class: usize) -> bool {
    exists|i: int| 0 <= i < s.len() && (#[trigger] s[i]).0 == value && s[i].2 == class
}

/// The widths that a constant may have.
pub open spec fn widths() -> Seq<u32> {
    seq![8u32, 16u32, 32u32, 64u32]
}

/// The first `n` of the widths that a value does not occur with.
pub open spec fn missing_widths(s: Seq<ConstSite>, value: i64, n: nat) -> Seq<u32>
    decreases n,
{
    if n == 0 {
        Seq::empty()
    } else {
        let before = missing_widths(s, value, (n - 1) as nat);
        if has_width(s, value, widths()[n - 1]) {
            before
        } else {
            before.push(widths()[n - 1])
        }
    }
}

/// Whether a group is that of its value.
pub open spec fn is_group(s: Seq<ConstSite>, g: ConstGroup) -> bool {
    &&& has_value(s, g.value)
    &&& g.classes@.no_duplicates()
    &&& forall|c: usize| #[trigger] g.classes@.contains(c) <==> has_class(s, g.value, c)
    &&& g.missing@ == missing_widths(s, g.value, 4)
}

/// Whether a value has a group.
pub open spec fn has_group(groups: Seq<ConstGroup>, value: i64) -> bool {
    exists|i: int| 0 <= i < groups.len() && (#[trigger] groups[i]).value == value
}

/// Whether every value that occurs has a group, and no two groups have the
/// same value.
pub open spec fn are_groups(s: Seq<ConstSite>, groups: Seq<ConstGroup>) -> bool {
    &&& forall|i: int| 0 <= i < groups.len() ==> is_group(s, #[trigger] groups[i])
    &&& forall|i: int, j: int|
        0 <= i < j < groups.len() ==> (#[trigger] groups[i]).value != (#[trigger] groups[j]).value
    &&& forall|v: i64| #[trigger] has_value(s, v) ==> has_group(groups, v)
}

fn occurs(s: &Vec<ConstSite>, value: i64, width: u32) -> (r: bool)
    ensures
        r == has_width(s@, value, width),
{
    let n: usize = s.len();
    for i in 0..n
        invariant
            n == s@.len(),
            forall|k: int| 0 <= k < i ==> !((#[trigger] s@[k]).0 == value && s@[k].1 == width),
    {
        if s[i].0 == value && s[i].1 == width {
            assert(s@[i as int].0 == value);
            return true;
        }
    }
    false
}

fn group_of(s: &Vec<ConstSite>, value: i64) -> (r: ConstGroup)
    requires
        has_value(s@, value),
    ensures
        is_group(s@, r),
        r.value == value,
{
    let n: usize = s.len();
    let mut classes: Vec<usize> = Vec::new();
    for i in 0..n
        invariant
            n == s@.len(),
            classes@.no_duplicates(),
            forall|c: usize| #[trigger]
                classes@.contains(c) <==> has_class(s@.take(i as int), value, c),
    {
        let ghost a = s@.take(i as int);
        let ghost b = s@.take(i + 1);
        let ghost before = classes@;
        let ghost x = s@[i as int];
        assert(b =~= a.push(x));
        assert forall|c: usize| has_class(b, value, c) <==> has_class(a, value, c) || (x.0 == value
            && x.2 == c) by {
            if has_class(a, value, c) {
                let k = choose|k: int|
                    0 <= k < a.len() && (#[trigger] a[k]).0 == value && a[k].2 == c;
                assert(b[k] == a[k]);
            }
            assert(b[i as int] == x);
            if has_class(b, value, c) {
                let k = choose|k: int|
                    0 <= k < b.len() && (#[trigger] b[k]).0 == value && b[k].2 == c;
                if k < i {
                    assert(a[k] == b[k]);
                }
            }
        }
        if s[i].0 == value && !id_among(&classes, s[i].2) {
            classes.push(s[i].2);
            proof {
                assert forall|c: usize| #[trigger] classes@.contains(c) <==> before.contains(c) || c
                    == x.2 by {
                    if before.contains(c) {
                        let k = choose|k: int| 0 <= k < before.len() && before[k] == c;
                        assert(classes@[k] == c);
                    }
                    assert(classes@[before.len() as int] == x.2);
                    if classes@.contains(c) {
                        let k = choose|k: int| 0 <= k < classes@.len() && classes@[k] == c;
                        if k < before.len() {
                            assert(before[k] == c);
                        }
                    }
                }
            }
        }
    }
    assert(s@.take(n as int) =~= s@);
    let known: [u32; 4] = [8, 16, 32, 64];
    let mut missing: Vec<u32> = Vec::new();
    assert(missing@ =~= missing_widths(s@, value, 0));
    for k in 0..4usize
        invariant
            known@ == widths(),
            missing@ == missing_widths(s@, value, k as nat),
    {
        if !occurs(s, value, known[k]) {
            missing.push(known[k]);
        }
    }
    ConstGroup { value, classes, missing }
}

/// Groups constants by their values, in the order in which they come.
pub fn group_consts(s: &Vec<ConstSite>) -> (r: Vec<ConstGroup>)
    ensures
        are_groups(s@, r@),
{
    let n: usize = s.len();
    let mut r: Vec<ConstGroup> = Vec::new();
    for i in 0..n
        invariant
            n == s@.len(),
            forall|k: int| 0 <= k < r@.len() ==> is_group(s@, #[trigger] r@[k]),
            forall|k: int, j: int|
                0 <= k < j < r@.len() ==> (#[trigger] r@[k]).value != (#[trigger] r@[j]).value,
            forall|k: int| 0 <= k < i ==> has_group(r@, (#[trigger] s@[k]).0),
    {
        let value: i64 = s[i].0;
        let m: usize = r.len();
        let mut seen: bool = false;
        for j in 0..m
            invariant
                m == r@.len(),
                seen == has_group(r@.take(j as int), value),
        {
            let ghost a = r@.take(j as int);
            let ghost b = r@.take(j + 1);
            assert(b =~= a.push(r@[j as int]));
            if r[j].value == value {
                seen = true;
                assert(b[j as int].value == value);
            } else if seen {
                let ghost k = choose|k: int| 0 <= k < a.len() && (#[trigger] a[k]).value == value;
                assert(b[k].value == value);
            } else {
                assert forall|k: int| 0 <= k < b.len() implies (#[trigger] b[k]).value != value by {
                    if k < j {
                        assert(a[k].value != value);
                    }
                }
            }
        }
        assert(r@.take(m as int) =~= r@);
        let ghost before = r@;
        if !seen {
            assert(has_value(s@, value)) by {
                assert(s@[i as int].0 == value);
            }
            r.push(group_of(s, value));
            assert(r@[m as int].value == value);
        }
        assert forall|k: int| 0 <= k < i + 1 implies has_group(r@, (#[trigger] s@[k]).0) by {
            if k < i {
                let j = choose|j: int|
                    0 <= j < before.len() && (#[trigger] before[j]).value == s@[k].0;
                assert(r@[j].value == s@[k].0);
            }
        }
    }
    assert forall|v: i64| #[trigger] has_value(s@, v) implies has_group(r@, v) by {
        let k = choose|k: int| 0 <= k < s@.len() && (#[trigger] s@[k]).0 == v;
        assert(s@[k].0 == v);
    }
    r
}

/// The constants of an e-graph by their values: the classes that are to be
/// united, and the constants that are to be added to them.
pub fn width_groups<Op: OperationInfo<N>, N: Number, D>(egraph: &EGraph<Op, D>) -> (r: Vec<
    ConstGroup,
>)
    ensures
        are_groups(all_consts::<Op, N, D>(*egraph, egraph.classes@.len()), r@),
{
    group_consts(&find_consts::<Op, N, D>(egraph))
}

} // verus!
