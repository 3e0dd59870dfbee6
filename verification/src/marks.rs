//! Marks on the classes of an e-graph.
use vstd::prelude::*;

verus! {

/// How many of the marks are not set.
pub open spec fn unmarked(marks: Seq<bool>) -> nat
    decreases marks.len(),
{
    if marks.len() == 0 {
        0
    } else {
        unmarked(marks.drop_last()) + if marks.last() {
            0nat
        } else {
            1nat
        }
    }
}

/// Setting a mark leaves one fewer that is not set.
pub(crate) proof fn lemma_unmarked(marks: Seq<bool>, k: int)
    requires
        0 <= k < marks.len(),
        !marks[k],
    ensures
        unmarked(marks.update(k, true)) + 1 == unmarked(marks),
    decreases marks.len(),
{
    let t = marks.update(k, true);
    if k == marks.len() - 1 {
        assert(t.drop_last() =~= marks.drop_last());
    } else {
        lemma_unmarked(marks.drop_last(), k);
        assert(t.drop_last() =~= marks.drop_last().update(k, true));
    }
}

/// No more marks are not set than there are.
pub(crate) proof fn lemma_unmarked_bound(marks: Seq<bool>)
    ensures
        unmarked(marks) <= marks.len(),
    decreases marks.len(),
{
    if marks.len() > 0 {
        lemma_unmarked_bound(marks.drop_last());
    }
}

/// Marks that are not set.
pub(crate) fn no_marks(n: usize) -> (r: Vec<bool>)
    ensures
        r@.len() == n,
        forall|k: int| 0 <= k < n ==> !r@[k],
{
    let mut marks: Vec<bool> = Vec::new();
    for i in 0..n
        invariant
            marks@.len() == i,
            forall|k: int| 0 <= k < i ==> !marks@[k],
    {
        marks.push(false);
    }
    marks
}

} // verus!
