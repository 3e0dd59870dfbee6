//! What the levels of classes and the contexts of extractions keep.
use crate::extract::lib_context::with_id;
use crate::extract::structural_hash::{
    bop_number, cast_number, half, level_merged, tenth, top_number, updated, vector_number,
};
use crate::id_map::{increasing, lemma_slot};
use crate::number::{Fixed, Number};
use crate::teachable::{CastOp, ShieldingBop, ShieldingTop, VectorOp};
use vstd::prelude::*;

verus! {

/// A meeting at a level moves its state a tenth of the way to a half where it
/// is real, and to zero where it is not, up to a thousandth.
pub proof fn law_states_move_by_a_tenth(state: Fixed)
    requires
        state.raw >= 0,
    ensures
        9 * state.raw + 490 < 10 * updated(state, true).raw <= 9 * state.raw + 500
            || updated(state, true).raw == i64::MAX,
        9 * state.raw - 10 < 10 * updated(state, false).raw <= 9 * state.raw,
{
    let one = Fixed::s_count(1);
    assert(Fixed::s_count(10).raw == 10000 && Fixed::s_count(2).raw == 2000);
    assert(one.raw == 1000);
    assert(tenth::<Fixed>().raw == 100) by {
        assert(1000int * 1000 / 10000 == 100);
    }
    assert(half::<Fixed>().raw == 500) by {
        assert(1000int * 1000 / 2000 == 500);
    }
    let most = one.s_minus(tenth());
    assert(most.raw == 900);
    let kept = most.s_times(state);
    assert(most.raw * state.raw == 900 * state.raw) by (nonlinear_arith)
        requires
            most.raw == 900,
    ;
    assert(kept.raw == 900 * state.raw / 1000);
    let full = tenth::<Fixed>().s_times(Fixed::s_count(1));
    assert(tenth::<Fixed>().raw * Fixed::s_count(1).raw == 100 * 1000) by (nonlinear_arith)
        requires
            tenth::<Fixed>().raw == 100,
            Fixed::s_count(1).raw == 1000,
    ;
    assert(full.raw == 100);
    assert(full.raw * half::<Fixed>().raw == 100 * 500) by (nonlinear_arith)
        requires
            full.raw == 100,
            half::<Fixed>().raw == 500,
    ;
    assert(full.s_times(half()).raw == 50);
    let none = tenth::<Fixed>().s_times(Fixed::s_count(0));
    assert(Fixed::s_count(0).raw == 0);
    assert(tenth::<Fixed>().raw * Fixed::s_count(0).raw == 0) by (nonlinear_arith)
        requires
            Fixed::s_count(0).raw == 0,
    ;
    assert(none.raw == 0);
    assert(none.raw * half::<Fixed>().raw == 0) by (nonlinear_arith)
        requires
            none.raw == 0,
    ;
    assert(none.s_times(half()).raw == 0);
}

/// Where two classes meet, a level that both have stays, and its state moves
/// as for a real meeting. A level that neither has stays away, and nothing
/// changes. Where one of them has it, the state moves as for a meeting that is
/// not real, and the level stays where the draw is above it.
pub proof fn law_levels_meet(a: bool, b: bool, state: Fixed, bit: bool, after: Fixed, draw: Fixed)
    requires
        level_merged((a, b, state), (bit, after), draw),
        state.raw >= 0,
    ensures
        a && b ==> bit && (9 * state.raw + 490 < 10 * after.raw <= 9 * state.raw + 500
            || after.raw == i64::MAX),
        !a && !b ==> !bit && after == state,
        a != b ==> 9 * state.raw - 10 < 10 * after.raw <= 9 * state.raw && (bit <==> after.raw
            < draw.raw),
{
    law_states_move_by_a_tenth(state);
}

/// A context with one more library function has that one and those that it
/// had, in ascending order, and the order in which two are added makes no
/// difference.
pub proof fn law_contexts(ids: Seq<usize>, a: usize, b: usize)
    requires
        increasing(ids),
    ensures
        increasing(with_id(ids, a)),
        forall|k: usize| #[trigger] with_id(ids, a).contains(k) <==> ids.contains(k) || k == a,
        with_id(with_id(ids, a), b) == with_id(with_id(ids, b), a),
{
    lemma_with_id(ids, a);
    lemma_with_id(ids, b);
    let (x, y) = (with_id(ids, a), with_id(ids, b));
    lemma_with_id(x, b);
    lemma_with_id(y, a);
    let (s, t) = (with_id(x, b), with_id(y, a));
    assert forall|k: usize| s.contains(k) <==> t.contains(k) by {
        assert(x.contains(k) <==> ids.contains(k) || k == a);
        assert(y.contains(k) <==> ids.contains(k) || k == b);
    }
    lemma_same_members(s, t);
}

proof fn lemma_with_id(ids: Seq<usize>, a: usize)
    requires
        increasing(ids),
    ensures
        increasing(with_id(ids, a)),
        forall|k: usize| #[trigger] with_id(ids, a).contains(k) <==> ids.contains(k) || k == a,
{
    lemma_slot(ids, a);
    let t = with_id(ids, a);
    if !ids.contains(a) {
        let p = crate::id_map::slot(ids, a);
        assert forall|i: int, j: int| 0 <= i < j < t.len() implies t[i] < t[j] by {
            let i0 = if i < p {
                i
            } else {
                i - 1
            };
            let j0 = if j < p {
                j
            } else {
                j - 1
            };
            if i == p {
                assert(ids[j0] >= a);
                assert(ids.contains(ids[j0]));
            }
        }
        assert forall|k: usize| #[trigger] t.contains(k) <==> ids.contains(k) || k == a by {
            if t.contains(k) {
                let i = choose|i: int| 0 <= i < t.len() && t[i] == k;
                if i < p {
                    assert(ids[i] == k);
                } else if i > p {
                    assert(ids[i - 1] == k);
                }
            }
            if ids.contains(k) {
                let i = choose|i: int| 0 <= i < ids.len() && ids[i] == k;
                if i < p {
                    assert(t[i] == k);
                } else {
                    assert(t[i + 1] == k);
                }
            }
            assert(t[p] == a);
        }
    }
}

proof fn lemma_same_members(s: Seq<usize>, t: Seq<usize>)
    requires
        increasing(s),
        increasing(t),
        forall|k: usize| s.contains(k) <==> t.contains(k),
    ensures
        s == t,
    decreases s.len(),
{
    if s.len() == 0 {
        if t.len() > 0 {
            assert(t.contains(t[0]));
            assert(s.contains(t[0]));
        }
        assert(s =~= t);
    } else {
        assert(s.contains(s.last()));
        assert(t.contains(s.last()));
        let i = choose|i: int| 0 <= i < t.len() && t[i] == s.last();
        assert(t.contains(t.last()));
        assert(s.contains(t.last()));
        let j = choose|j: int| 0 <= j < s.len() && s[j] == t.last();
        if i < t.len() - 1 {
            assert(t[i] < t[t.len() - 1]);
            if j < s.len() - 1 {
                assert(s[j] < s[s.len() - 1]);
            }
        }
        assert(s.last() == t.last());
        let (x, y) = (s.drop_last(), t.drop_last());
        assert forall|k: usize| x.contains(k) <==> y.contains(k) by {
            if x.contains(k) {
                let m = choose|m: int| 0 <= m < x.len() && x[m] == k;
                assert(s[m] == k && s.contains(k));
                assert(s[m] < s[s.len() - 1]);
                let n = choose|n: int| 0 <= n < t.len() && t[n] == k;
                assert(n < t.len() - 1);
                assert(y[n] == k);
            }
            if y.contains(k) {
                let m = choose|m: int| 0 <= m < y.len() && y[m] == k;
                assert(t[m] == k && t.contains(k));
                assert(t[m] < t[t.len() - 1]);
                let n = choose|n: int| 0 <= n < s.len() && s[n] == k;
                assert(n < s.len() - 1);
                assert(x[n] == k);
            }
        }
        lemma_same_members(x, y);
        assert(s =~= x.push(s.last()));
        assert(t =~= y.push(t.last()));
    }
}

/// Different operations are hashed as different numbers.
pub proof fn law_operations_have_different_numbers(
    a: ShieldingBop,
    b: ShieldingBop,
    c: ShieldingTop,
    d: ShieldingTop,
    e: CastOp,
    f: CastOp,
    g: VectorOp,
    h: VectorOp,
)
    ensures
        a != b ==> bop_number(a) != bop_number(b),
        c != d ==> top_number(c) != top_number(d),
        e != f ==> cast_number(e) != cast_number(f),
        g != h ==> vector_number(g) != vector_number(h),
{
}

} // verus!
