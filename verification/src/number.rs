//! The numbers in which cycles, latencies and execution counts are measured.
//!
//! All cost computations are generic over [`Number`]. [`Fixed`] is a
//! saturating fixed-point number; a caller may bring a number type of its
//! own.
use crate::text::{
    all_digits, decimal, decimal_text, decimal_wide, digit_char, digits_value, lemma_decimal_digits,
    to_chars,
};
use crate::text_split::{cut, part, place_from, split_once};
use vstd::prelude::*;

verus! {

/// A number with arithmetic, a total order, and a reading and a writing.
///
/// The arithmetic has no laws: it may round or saturate. The order is total
/// and transitive; two numbers that are ordered both ways may differ in
/// representation only.
pub trait Number: Copy + Sized {
    /// Zero.
    open spec fn s_zero() -> Self {
        arbitrary()
    }

    /// The largest finite number.
    open spec fn s_top() -> Self {
        arbitrary()
    }

    /// The number of `n` things.
    open spec fn s_count(n: usize) -> Self {
        arbitrary()
    }

    open spec fn s_plus(self, other: Self) -> Self {
        arbitrary()
    }

    open spec fn s_minus(self, other: Self) -> Self {
        arbitrary()
    }

    open spec fn s_times(self, other: Self) -> Self {
        arbitrary()
    }

    open spec fn s_over(self, other: Self) -> Self {
        arbitrary()
    }

    /// The total order.
    open spec fn s_le(self, other: Self) -> bool {
        arbitrary()
    }

    /// The strict arithmetic comparison. It need not be total.
    open spec fn s_below(self, other: Self) -> bool {
        arbitrary()
    }

    /// The arithmetic equality.
    open spec fn s_equals(self, other: Self) -> bool {
        arbitrary()
    }

    /// Whether two numbers are told to be the same.
    open spec fn s_identical(self, other: Self) -> bool {
        arbitrary()
    }

    /// The larger of two numbers.
    open spec fn s_larger(self, other: Self) -> Self {
        arbitrary()
    }

    /// The least count that is not below this number.
    open spec fn s_round_up(self) -> usize {
        arbitrary()
    }

    /// This number without its fraction.
    open spec fn s_whole(self) -> usize {
        arbitrary()
    }

    /// The number that a text spells.
    open spec fn s_read(s: Seq<char>) -> Option<Self> {
        arbitrary()
    }

    /// This number as a text.
    open spec fn s_text(self) -> Seq<char> {
        arbitrary()
    }

    fn zero() -> (r: Self)
        ensures
            r == Self::s_zero(),
    ;

    fn top() -> (r: Self)
        ensures
            r == Self::s_top(),
    ;

    fn count(n: usize) -> (r: Self)
        ensures
            r == Self::s_count(n),
    ;

    fn plus(self, other: Self) -> (r: Self)
        ensures
            r == self.s_plus(other),
    ;

    fn minus(self, other: Self) -> (r: Self)
        ensures
            r == self.s_minus(other),
    ;

    fn times(self, other: Self) -> (r: Self)
        ensures
            r == self.s_times(other),
    ;

    fn over(self, other: Self) -> (r: Self)
        ensures
            r == self.s_over(other),
    ;

    fn le(self, other: Self) -> (r: bool)
        ensures
            r == self.s_le(other),
    ;

    fn below(self, other: Self) -> (r: bool)
        ensures
            r == self.s_below(other),
    ;

    fn equals(self, other: Self) -> (r: bool)
        ensures
            r == self.s_equals(other),
    ;

    fn identical(self, other: Self) -> (r: bool)
        ensures
            r == self.s_identical(other),
    ;

    fn larger(self, other: Self) -> (r: Self)
        ensures
            r == self.s_larger(other),
    ;

    fn round_up(self) -> (r: usize)
        ensures
            r == self.s_round_up(),
    ;

    fn whole(self) -> (r: usize)
        ensures
            r == self.s_whole(),
    ;

    fn read(s: &str) -> (r: Option<Self>)
        ensures
            r == Self::s_read(s@),
    ;

    fn text(self) -> (r: String)
        ensures
            r@ == self.s_text(),
    ;

    /// Numbers that are told to be the same are equal.
    proof fn identical_are_equal(a: Self, b: Self)
        requires
            a.s_identical(b),
        ensures
            a == b,
    ;

    /// Any two numbers are ordered one way or the other.
    proof fn le_total(a: Self, b: Self)
        ensures
            a.s_le(b) || b.s_le(a),
    ;

    /// The order is transitive.
    proof fn le_transitive(a: Self, b: Self, c: Self)
        requires
            a.s_le(b),
            b.s_le(c),
        ensures
            a.s_le(c),
    ;
}

/// Whether `a` and `b` stand at the same place in the order.
pub open spec fn same_rank<N: Number>(a: N, b: N) -> bool {
    a.s_le(b) && b.s_le(a)
}

/// Whether `a` stands strictly before `b` in the order.
pub open spec fn ranks_before<N: Number>(a: N, b: N) -> bool {
    a.s_le(b) && !b.s_le(a)
}

/// A fixed-point number with three decimals. Every operation saturates at the
/// ends of the range and drops what lies behind the third decimal.
#[derive(Clone, Copy, Debug, PartialEq, Eq)]
pub struct Fixed {
    /// The number in thousandths.
    pub raw: i64,
}

/// `x`, or the end of the range of `i64` that is nearest to it.
pub open spec fn clamped(x: int) -> i64 {
    if x > i64::MAX {
        i64::MAX
    } else if x < i64::MIN {
        i64::MIN
    } else {
        x as i64
    }
}

/// The quotient of `x` by a positive `d`, rounded towards zero.
pub open spec fn toward_zero(x: int, d: int) -> int {
    if x >= 0 {
        x / d
    } else {
        -((-x) / d)
    }
}

/// The absolute value of `x`.
pub open spec fn magnitude(x: int) -> int {
    if x < 0 {
        -x
    } else {
        x
    }
}

/// `x`, or `usize::MAX` where it is larger.
pub open spec fn at_most_usize(x: int) -> usize {
    if x > usize::MAX {
        usize::MAX
    } else {
        x as usize
    }
}

/// A number below a thousand in three digits.
pub open spec fn padded(rest: nat) -> Seq<char> {
    if rest < 10 {
        seq!['0', '0'] + decimal(rest)
    } else if rest < 100 {
        seq!['0'] + decimal(rest)
    } else {
        decimal(rest)
    }
}

/// The text of `m` thousandths.
pub open spec fn thousandths_text(m: nat) -> Seq<char> {
    decimal(m / 1000) + seq!['.'] + padded(m % 1000)
}

/// The thousandths that the digits behind a decimal point stand for, as far
/// as the third.
pub open spec fn fraction_value(f: Seq<char>) -> nat {
    if f.len() == 0 {
        0
    } else if f.len() == 1 {
        100 * digits_value(f)
    } else if f.len() == 2 {
        10 * digits_value(f)
    } else {
        digits_value(f.take(3))
    }
}

/// The thousandths that a text without a sign spells: decimal digits, at least
/// one, with a decimal point among them or none.
pub open spec fn thousandths(s: Seq<char>) -> Option<nat> {
    let (whole, fraction) = match split_once(s, "."@) {
        Some((w, f)) => (w, f),
        None => (s, Seq::<char>::empty()),
    };
    if whole.len() + fraction.len() > 0 && all_digits(whole) && all_digits(fraction) {
        Some((1000 * digits_value(whole) + fraction_value(fraction)) as nat)
    } else {
        None
    }
}

/// What digits stand for, or 2^64 where that is less.
spec fn value_to(s: Seq<char>) -> nat {
    if digits_value(s) < 0x1_0000_0000_0000_0000 {
        digits_value(s)
    } else {
        0x1_0000_0000_0000_0000
    }
}

/// The number that the first `n` characters stand for, or 2^64 where that is
/// less, if they are digits.
fn read_digits(s: &Vec<char>, n: usize) -> (r: Option<u128>)
    requires
        n <= s@.len(),
    ensures
        r is Some <==> all_digits(s@.take(n as int)),
        r matches Some(v) ==> v == value_to(s@.take(n as int)),
{
    let mut v: u128 = 0;
    assert(digits_value(s@.take(0)) == 0);
    for i in 0..n
        invariant
            n <= s@.len(),
            all_digits(s@.take(i as int)),
            v == value_to(s@.take(i as int)),
    {
        let c: char = s[i];
        let ghost t = s@.take(i + 1);
        assert(t.drop_last() =~= s@.take(i as int));
        if c < '0' || c > '9' {
            assert(s@.take(n as int)[i as int] == c);
            return None;
        }
        assert forall|j: int| 0 <= j < t.len() implies '0' <= #[trigger] t[j] <= '9' by {
            if j < i {
                assert(s@.take(i as int)[j] == t[j]);
            }
        }
        let d: u128 = (c as u32 - '0' as u32) as u128;
        let w: u128 = 10 * v + d;
        v = if w < 0x1_0000_0000_0000_0000 {
            w
        } else {
            0x1_0000_0000_0000_0000
        };
        assert(digits_value(t) == 10 * digits_value(t.drop_last()) + d);
    }
    Some(v)
}

/// The thousandths that a text without a sign spells, or 1000 times 2^64 where
/// they are more.
fn read_thousandths(s: &Vec<char>) -> (r: Option<u128>)
    ensures
        r is Some <==> thousandths(s@) is Some,
        r matches Some(m) ==> {
            let t = thousandths(s@)->Some_0;
            m <= 1000 * 0x1_0000_0000_0000_0000 + 999 && if t
                < 1000 * 0x1_0000_0000_0000_0000 {
                m == t
            } else {
                m >= 1000 * 0x1_0000_0000_0000_0000
            }
        },
{
    let (whole, fraction): (Vec<char>, Vec<char>) = match cut(s, ".") {
        Some((w, f)) => (w, f),
        None => {
            let w: Vec<char> = part(s, 0, s.len());
            assert(w@ =~= s@);
            let f: Vec<char> = Vec::new();
            assert(f@ =~= Seq::<char>::empty());
            (w, f)
        },
    };
    let places: usize = fraction.len();
    if whole.len() == 0 && places == 0 {
        return None;
    }
    assert(whole@.take(whole@.len() as int) =~= whole@);
    assert(fraction@.take(fraction@.len() as int) =~= fraction@);
    let w: u128 = match read_digits(&whole, whole.len()) {
        Some(w) => w,
        None => {
            return None;
        },
    };
    if read_digits(&fraction, places).is_none() {
        return None;
    }
    let shown: usize = if places < 3 {
        places
    } else {
        3
    };
    proof {
        assert forall|j: int| 0 <= j < shown implies '0' <= #[trigger] fraction@.take(
            shown as int,
        )[j] <= '9' by {
            assert(fraction@[j] == fraction@.take(shown as int)[j]);
        }
        lemma_few_digits(fraction@.take(shown as int));
    }
    let digits: u128 = match read_digits(&fraction, shown) {
        Some(f) => f,
        None => {
            return None;
        },
    };
    let f: u128 = if places == 0 {
        0
    } else if places == 1 {
        100 * digits
    } else if places == 2 {
        10 * digits
    } else {
        digits
    };
    Some(1000 * w + f)
}

/// Up to three digits stand for less than a thousand.
proof fn lemma_few_digits(s: Seq<char>)
    requires
        s.len() <= 3,
        all_digits(s),
    ensures
        s.len() == 0 ==> digits_value(s) == 0,
        s.len() == 1 ==> digits_value(s) < 10,
        s.len() == 2 ==> digits_value(s) < 100,
        digits_value(s) < 1000,
    decreases s.len(),
{
    if s.len() > 0 {
        let t = s.drop_last();
        assert forall|j: int| 0 <= j < t.len() implies '0' <= #[trigger] t[j] <= '9' by {
            assert(s[j] == t[j]);
        }
        lemma_few_digits(t);
        assert('0' <= s[s.len() - 1] <= '9');
    }
}

fn clamp(x: i128) -> (r: i64)
    ensures
        r == clamped(x as int),
{
    if x > 0x7fff_ffff_ffff_ffffi128 {
        i64::MAX
    } else if x < -0x8000_0000_0000_0000i128 {
        i64::MIN
    } else {
        x as i64
    }
}

fn quotient(x: i128, d: i128) -> (r: i128)
    requires
        d > 0,
        x > i128::MIN,
    ensures
        r == toward_zero(x as int, d as int),
        magnitude(r as int) <= magnitude(x as int),
{
    proof {
        assert(magnitude(x as int) / (d as int) <= magnitude(x as int)) by (nonlinear_arith)
            requires
                d > 0,
                magnitude(x as int) >= 0,
        ;
        assert(magnitude(x as int) / (d as int) >= 0) by (nonlinear_arith)
            requires
                d > 0,
                magnitude(x as int) >= 0,
        ;
    }
    if x >= 0 {
        x / d
    } else {
        -((-x) / d)
    }
}

fn count_of(x: i64) -> (r: usize)
    requires
        x >= 0,
    ensures
        r == at_most_usize(x as int),
{
    let y: u128 = x as u128;
    if y > usize::MAX as u128 {
        usize::MAX
    } else {
        x as usize
    }
}

impl Number for Fixed {
    open spec fn s_zero() -> Self {
        Fixed { raw: 0 }
    }

    open spec fn s_top() -> Self {
        Fixed { raw: i64::MAX }
    }

    open spec fn s_count(n: usize) -> Self {
        Fixed { raw: clamped(n * 1000) }
    }

    open spec fn s_plus(self, other: Self) -> Self {
        Fixed { raw: clamped(self.raw + other.raw) }
    }

    open spec fn s_minus(self, other: Self) -> Self {
        Fixed { raw: clamped(self.raw - other.raw) }
    }

    open spec fn s_times(self, other: Self) -> Self {
        Fixed { raw: clamped(toward_zero(self.raw * other.raw, 1000)) }
    }

    open spec fn s_over(self, other: Self) -> Self {
        if other.raw == 0 {
            if self.raw > 0 {
                Fixed { raw: i64::MAX }
            } else if self.raw < 0 {
                Fixed { raw: i64::MIN }
            } else {
                Fixed { raw: 0 }
            }
        } else if other.raw > 0 {
            Fixed { raw: clamped(toward_zero(self.raw * 1000, other.raw as int)) }
        } else {
            Fixed { raw: clamped(toward_zero(-self.raw * 1000, -other.raw)) }
        }
    }

    open spec fn s_le(self, other: Self) -> bool {
        self.raw <= other.raw
    }

    open spec fn s_below(self, other: Self) -> bool {
        self.raw < other.raw
    }

    open spec fn s_equals(self, other: Self) -> bool {
        self.raw == other.raw
    }

    open spec fn s_identical(self, other: Self) -> bool {
        self.raw == other.raw
    }

    open spec fn s_larger(self, other: Self) -> Self {
        if self.raw < other.raw {
            other
        } else {
            self
        }
    }

    open spec fn s_round_up(self) -> usize {
        if self.raw <= 0 {
            0
        } else {
            at_most_usize((self.raw + 999) / 1000)
        }
    }

    open spec fn s_whole(self) -> usize {
        if self.raw <= 0 {
            0
        } else {
            at_most_usize(self.raw as int / 1000)
        }
    }

    open spec fn s_read(s: Seq<char>) -> Option<Self> {
        let unsigned = if s.len() > 0 && (s[0] == '-' || s[0] == '+') {
            s.drop_first()
        } else {
            s
        };
        match thousandths(unsigned) {
            Some(m) => Some(
                Fixed {
                    raw: clamped(
                        if s.len() > 0 && s[0] == '-' {
                            -(m as int)
                        } else {
                            m as int
                        },
                    ),
                },
            ),
            None => None,
        }
    }

    open spec fn s_text(self) -> Seq<char> {
        let m = magnitude(self.raw as int) as nat;
        if self.raw < 0 {
            seq!['-'] + thousandths_text(m)
        } else {
            thousandths_text(m)
        }
    }

    fn zero() -> (r: Self) {
        Fixed { raw: 0 }
    }

    fn top() -> (r: Self) {
        Fixed { raw: i64::MAX }
    }

    fn count(n: usize) -> (r: Self) {
        Fixed { raw: clamp(n as i128 * 1000) }
    }

    fn plus(self, other: Self) -> (r: Self) {
        Fixed { raw: clamp(self.raw as i128 + other.raw as i128) }
    }

    fn minus(self, other: Self) -> (r: Self) {
        Fixed { raw: clamp(self.raw as i128 - other.raw as i128) }
    }

    fn times(self, other: Self) -> (r: Self) {
        let a: i128 = self.raw as i128;
        let b: i128 = other.raw as i128;
        proof {
            lemma_product_bounds(self.raw, other.raw);
        }
        Fixed { raw: clamp(quotient(a * b, 1000)) }
    }

    fn over(self, other: Self) -> (r: Self) {
        if other.raw == 0 {
            if self.raw > 0 {
                Fixed { raw: i64::MAX }
            } else if self.raw < 0 {
                Fixed { raw: i64::MIN }
            } else {
                Fixed { raw: 0 }
            }
        } else if other.raw > 0 {
            Fixed { raw: clamp(quotient(self.raw as i128 * 1000, other.raw as i128)) }
        } else {
            Fixed { raw: clamp(quotient(-(self.raw as i128) * 1000, -(other.raw as i128))) }
        }
    }

    fn le(self, other: Self) -> (r: bool) {
        self.raw <= other.raw
    }

    fn below(self, other: Self) -> (r: bool) {
        self.raw < other.raw
    }

    fn equals(self, other: Self) -> (r: bool) {
        self.raw == other.raw
    }

    fn identical(self, other: Self) -> (r: bool) {
        self.raw == other.raw
    }

    fn larger(self, other: Self) -> (r: Self) {
        if self.raw < other.raw {
            other
        } else {
            self
        }
    }

    fn round_up(self) -> (r: usize) {
        if self.raw <= 0 {
            0
        } else {
            let q: i64 = self.raw / 1000;
            if self.raw % 1000 == 0 {
                count_of(q)
            } else {
                count_of(q + 1)
            }
        }
    }

    fn whole(self) -> (r: usize) {
        if self.raw <= 0 {
            0
        } else {
            count_of(self.raw / 1000)
        }
    }

    fn read(s: &str) -> (r: Option<Self>) {
        let all: Vec<char> = to_chars(s);
        let n: usize = all.len();
        let negative: bool = n > 0 && all[0] == '-';
        let from: usize = if n > 0 && (all[0] == '-' || all[0] == '+') {
            1
        } else {
            0
        };
        let unsigned: Vec<char> = part(&all, from, n);
        assert(unsigned@ =~= if from == 1 {
            s@.drop_first()
        } else {
            s@
        });
        match read_thousandths(&unsigned) {
            Some(m) => {
                let x: i128 = if negative {
                    -(m as i128)
                } else {
                    m as i128
                };
                Some(Fixed { raw: clamp(x) })
            },
            None => None,
        }
    }

    fn text(self) -> (r: String) {
        let m: u128 = if self.raw < 0 {
            (-(self.raw as i128)) as u128
        } else {
            self.raw as u128
        };
        let mut out: String = String::new();
        if self.raw < 0 {
            out.push('-');
        }
        out.append(decimal_wide(m / 1000).as_str());
        out.push('.');
        let rest: usize = (m % 1000) as usize;
        if rest < 10 {
            out.push('0');
            out.push('0');
        } else if rest < 100 {
            out.push('0');
        }
        out.append(decimal_text(rest).as_str());
        assert(out@ =~= self.s_text());
        out
    }

    proof fn identical_are_equal(a: Self, b: Self) {
    }

    proof fn le_total(a: Self, b: Self) {
    }

    proof fn le_transitive(a: Self, b: Self, c: Self) {
    }
}

/// The first decimal point stands at `n`, with `i` not behind it.
proof fn lemma_point_at(s: Seq<char>, n: int, i: int)
    requires
        0 <= i <= n < s.len(),
        s[n] == '.',
        forall|j: int| i <= j < n ==> #[trigger] s[j] != '.',
    ensures
        place_from(s, "."@, i) == Some(n),
    decreases n - i,
{
    reveal_strlit(".");
    assert("."@ =~= seq!['.']);
    if i == n {
        assert(s.subrange(i, i + 1) =~= "."@);
    } else {
        assert(s.subrange(i, i + 1)[0] == s[i]);
        assert("."@[0] == '.');
        lemma_point_at(s, n, i + 1);
    }
}

/// Three digits that are written out stand for their number.
proof fn lemma_padded(rest: nat)
    requires
        rest < 1000,
    ensures
        padded(rest).len() == 3,
        all_digits(padded(rest)),
        digits_value(padded(rest)) == rest,
{
    let s = padded(rest);
    lemma_decimal_digits(rest);
    if rest < 10 {
        assert(s =~= seq!['0', '0', digit_char(rest as int)]);
    } else if rest < 100 {
        assert(decimal(rest / 10) =~= seq![digit_char((rest / 10) as int)]);
        assert(s =~= seq!['0', digit_char((rest / 10) as int), digit_char((rest % 10) as int)]);
    } else {
        assert(decimal(rest / 100) =~= seq![digit_char((rest / 100) as int)]);
        assert(decimal(rest / 10) == decimal(rest / 100).push(
            digit_char(((rest / 10) % 10) as int),
        ));
        assert(s =~= decimal(rest));
    }
    let t = s.drop_last();
    let u = t.drop_last();
    assert(u.drop_last() =~= Seq::<char>::empty());
    assert(digits_value(u.drop_last()) == 0);
    assert(digits_value(s) == 10 * digits_value(t) + (s.last() as nat - '0' as nat) as nat);
    assert(digits_value(t) == 10 * digits_value(u) + (t.last() as nat - '0' as nat) as nat);
    assert(digits_value(u) == (u.last() as nat - '0' as nat) as nat);
}

proof fn lemma_thousandths_read_back(m: nat)
    ensures
        thousandths(thousandths_text(m)) == Some(m),
        '0' <= thousandths_text(m)[0] <= '9',
        thousandths_text(m).len() > 0,
{
    let w = decimal(m / 1000);
    let f = padded(m % 1000);
    let s = thousandths_text(m);
    lemma_decimal_digits(m / 1000);
    lemma_padded(m % 1000);
    reveal_strlit(".");
    assert(s =~= w + seq!['.'] + f);
    assert forall|j: int| 0 <= j < w.len() implies #[trigger] s[j] != '.' by {
        assert('0' <= w[j] <= '9');
    }
    lemma_point_at(s, w.len() as int, 0);
    assert(s.take(w.len() as int) =~= w);
    assert(s.skip(w.len() as int + 1) =~= f);
    assert(f.take(3) =~= f);
    assert('0' <= w[0] <= '9');
}

/// Reading back a number that was written gives the number.
pub proof fn law_fixed_reads_back(x: Fixed)
    ensures
        Fixed::s_read(x.s_text()) == Some(x),
{
    let m = magnitude(x.raw as int) as nat;
    lemma_thousandths_read_back(m);
    let s = x.s_text();
    if x.raw < 0 {
        assert(s.drop_first() =~= thousandths_text(m));
    }
}

proof fn lemma_product_bounds(a: i64, b: i64)
    ensures
        -0x4000_0000_0000_0000_0000_0000_0000_0000 <= a * b
            <= 0x4000_0000_0000_0000_0000_0000_0000_0000,
{
    assert(-0x4000_0000_0000_0000_0000_0000_0000_0000 <= a * b
        <= 0x4000_0000_0000_0000_0000_0000_0000_0000) by (nonlinear_arith)
        requires
            -0x8000_0000_0000_0000 <= a <= 0x7fff_ffff_ffff_ffff,
            -0x8000_0000_0000_0000 <= b <= 0x7fff_ffff_ffff_ffff,
    ;
}

} // verus!
