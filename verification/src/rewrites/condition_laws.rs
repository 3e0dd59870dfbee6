//! How conditions are read, part by part.
use crate::rewrites::laws::lemma_split_halves;
use crate::rewrites::line_laws::{law_trimmed, lemma_no_place, stands_nowhere};
use crate::rewrites::type_match::{
    condition_read, pairs_read, var_of, ConditionError, ReadType, TypeMatch,
};
use crate::text_split::{split, trimmed};
use vstd::prelude::*;

verus! {

proof fn lemma_one_part(s: Seq<char>, c: char)
    requires
        !s.contains(c),
    ensures
        split(s, c) == seq![s],
    decreases s.len(),
{
    if s.len() > 0 {
        let t = s.drop_last();
        assert(!t.contains(c)) by {
            if t.contains(c) {
                let i = choose|i: int| 0 <= i < t.len() && t[i] == c;
                assert(s[i] == c);
            }
        }
        assert(s[s.len() - 1] == s.last());
        lemma_one_part(t, c);
        assert(t.push(s.last()) =~= s);
        assert(seq![t].update(0, s) =~= seq![s]);
    } else {
        assert(split(s, c) =~= seq![s]);
    }
}

proof fn lemma_two_parts(a: Seq<char>, b: Seq<char>, c: char)
    requires
        !b.contains(c),
    ensures
        split(a.push(c) + b, c) == split(a, c).push(b),
{
    lemma_split_halves(a, b, c);
    lemma_one_part(b, c);
    assert(a.push(c) + b =~= a + seq![c] + b);
    assert(split(a, c) + seq![b] =~= split(a, c).push(b));
}

proof fn lemma_same_pairs<T: ReadType>(s: Seq<Seq<char>>, t: Seq<Seq<char>>, k: nat)
    requires
        k <= s.len(),
        k <= t.len(),
        forall|i: int| 0 <= i < k ==> #[trigger] s[i] == t[i],
    ensures
        pairs_read::<T>(s, k) == pairs_read::<T>(t, k),
    decreases k,
{
    if k > 0 {
        lemma_same_pairs::<T>(s, t, (k - 1) as nat);
        assert(s[k - 1] == t[k - 1]);
    }
}

/// A condition with one more part, a variable and a type with a colon between
/// them, asks what it asked without it, and of that variable that it has that
/// type, in place of what it asked of it before. A part whose variable or type
/// cannot be read makes no condition, and one that could not be read without
/// the part cannot be read with it.
pub proof fn law_one_more_condition<T: ReadType>(
    shorter: &str,
    longer: &str,
    inner: Seq<char>,
    var: Seq<char>,
    ty: Seq<char>,
    r: Result<TypeMatch<T>, ConditionError>,
    s: Result<TypeMatch<T>, ConditionError>,
)
    requires
        shorter@ == seq!['('] + inner + seq![')'],
        longer@ == seq!['('] + (inner.push(',') + (var.push(':') + ty)) + seq![')'],
        !var.contains(',') && !var.contains(':'),
        !ty.contains(',') && !ty.contains(':') && !ty.contains('['),
        call_ensures(TypeMatch::<T>::parse, (shorter,), r),
        call_ensures(TypeMatch::<T>::parse, (longer,), s),
    ensures
        r is Err ==> s is Err && s->Err_0 == r->Err_0,
        r is Ok ==> match (var_of(trimmed(var)), T::s_read_type(trimmed(ty))) {
            (Some(v), Some(t)) => s is Ok && s->Ok_0@ == r->Ok_0@.insert(v, seq![t]),
            (Some(_), None) => s is Err && s->Err_0 == ConditionError::BadType,
            (None, _) => s is Err && s->Err_0 == ConditionError::BadVar,
        },
{
    let more = var.push(':') + ty;
    let long = inner.push(',') + more;
    assert(shorter@.subrange(1, shorter@.len() - 1) =~= inner);
    assert(longer@.subrange(1, longer@.len() - 1) =~= long);
    assert(shorter@.last() == ')' && longer@.last() == ')');
    assert(!more.contains(',')) by {
        if more.contains(',') {
            let i = choose|i: int| 0 <= i < more.len() && more[i] == ',';
            if i < var.len() {
                assert(var[i] == ',');
            } else if i > var.len() {
                assert(ty[i - var.len() - 1] == ',');
            }
        }
    }
    lemma_two_parts(inner, more, ',');
    lemma_two_parts(var, ty, ':');
    lemma_one_part(var, ':');
    let (a, b) = (split(inner, ','), split(long, ','));
    let n = a.len();
    assert(b.len() == n + 1);
    assert(b[n as int] == more);
    lemma_same_pairs::<T>(a, b, n);
    let parts = split(more, ':');
    assert(parts =~= seq![var, ty]);
    assert(parts[0] == var && parts[1] == ty);
    let right = trimmed(ty);
    law_trimmed(ty);
    reveal_strlit("[");
    assert("["@ =~= seq!['[']);
    assert(stands_nowhere(right, "["@)) by {
        assert forall|j: int| 0 <= j <= right.len() - 1 implies #[trigger] right.subrange(
            j,
            j + 1,
        ) != "["@ by {
            let (p, q) = choose|p: int, q: int|
                0 <= p <= q <= ty.len() && right == #[trigger] ty.subrange(p, q);
            if right.subrange(j, j + 1) == "["@ {
                assert(right.subrange(j, j + 1)[0] == '[');
                assert(ty[p + j] == '[');
            }
        }
    }
    lemma_no_place(right, "["@, 0);
    assert(condition_read::<T>(shorter@) == pairs_read::<T>(a, n));
    assert(condition_read::<T>(longer@) == pairs_read::<T>(b, n + 1));
}

} // verus!
