//! How exact fixed-point numbers are.
use crate::number::{magnitude, toward_zero, Fixed, Number};
use vstd::prelude::*;

verus! {

/// Whether a number of thousandths is in the range.
pub open spec fn in_range(x: int) -> bool {
    i64::MIN <= x <= i64::MAX
}

proof fn lemma_toward_zero(x: int, d: int)
    requires
        d > 0,
    ensures
        ({
            let q = toward_zero(x, d);
            &&& magnitude(q * d) <= magnitude(x)
            &&& magnitude(x - q * d) < d
            &&& x >= 0 ==> q >= 0
            &&& x <= 0 ==> q <= 0
        }),
{
    let m = magnitude(x);
    let k = m / d;
    assert(k >= 0 && k * d <= m && m - k * d < d && k * d >= 0 && (-k) * d == -(k * d))
        by (nonlinear_arith)
        requires
            d > 0,
            m >= 0,
            k == m / d,
    ;
}

/// Sums and differences in the range are exact, and those beyond it are its
/// ends.
pub proof fn law_sums_are_exact(a: Fixed, b: Fixed)
    ensures
        in_range(a.raw + b.raw) ==> a.s_plus(b).raw == a.raw + b.raw && a.s_plus(b).s_minus(b) == a,
        in_range(a.raw - b.raw) ==> a.s_minus(b).raw == a.raw - b.raw,
        a.raw + b.raw > i64::MAX ==> a.s_plus(b) == Fixed::s_top(),
        a.s_plus(b) == b.s_plus(a),
        a.s_plus(Fixed::s_zero()) == a,
{
}

/// A product in the range is the true one without what lies behind the third
/// decimal.
pub proof fn law_products_to_a_thousandth(a: Fixed, b: Fixed)
    requires
        in_range(toward_zero(a.raw * b.raw, 1000)),
    ensures
        ({
            let p = a.s_times(b).raw as int;
            let exact = a.raw * b.raw;
            &&& magnitude(p * 1000) <= magnitude(exact)
            &&& magnitude(exact - p * 1000) < 1000
            &&& exact >= 0 ==> p >= 0
            &&& exact <= 0 ==> p <= 0
        }),
{
    lemma_toward_zero(a.raw * b.raw, 1000);
}

/// A quotient in the range is the true one without what lies behind the third
/// decimal.
pub proof fn law_quotients_to_a_thousandth(a: Fixed, b: Fixed)
    requires
        b.raw > 0,
        in_range(toward_zero(a.raw * 1000, b.raw as int)),
    ensures
        ({
            let q = a.s_over(b).raw as int;
            let exact = a.raw * 1000;
            &&& magnitude(q * b.raw) <= magnitude(exact)
            &&& magnitude(exact - q * b.raw) < b.raw
            &&& exact >= 0 ==> q >= 0
            &&& exact <= 0 ==> q <= 0
        }),
{
    lemma_toward_zero(a.raw * 1000, b.raw as int);
}

/// A count is itself, rounded neither up nor down. Rounding down leaves less
/// than one, and rounding up adds less than one.
pub proof fn law_counts_and_rounding(a: Fixed, n: usize)
    ensures
        n * 1000 <= i64::MAX ==> Fixed::s_count(n).raw == n * 1000 && Fixed::s_count(n).s_whole()
            == n && Fixed::s_count(n).s_round_up() == n,
        a.raw <= 0 ==> a.s_whole() == 0 && a.s_round_up() == 0,
        0 < a.raw && a.raw <= usize::MAX ==> {
            &&& a.s_whole() * 1000 <= a.raw < (a.s_whole() + 1) * 1000
            &&& (a.s_round_up() - 1) * 1000 < a.raw <= a.s_round_up() * 1000
        },
{
}

/// Numbers are compared by what they are: one of two is below the other or
/// both are the same, and the larger is neither below the one nor the other.
pub proof fn law_comparisons(a: Fixed, b: Fixed)
    ensures
        a.s_below(b) <==> a.raw < b.raw,
        a.s_le(b) <==> !b.s_below(a),
        a.s_equals(b) <==> a == b,
        a.s_below(b) || b.s_below(a) || a.s_equals(b),
        a.s_larger(b) == a || a.s_larger(b) == b,
        !a.s_larger(b).s_below(a) && !a.s_larger(b).s_below(b),
{
}

} // verus!
