//! Identifiers of learned library functions, and where patterns match.
use crate::sorting::{in_order, lemma_placed, lemma_placed_at, total, transitive};
use crate::text::{decimal, decimal_text, parse_usize, text_of, to_chars, unsigned_value};
use std::num::ParseIntError;
use vstd::prelude::*;

verus! {

/// The identifier of a library function. Its text is the letter `l` followed
/// by the number.
#[derive(Clone, Copy, Debug, PartialEq, Eq, PartialOrd, Ord, Hash, Structural)]
pub struct LibId(pub usize);

/// Why a text is not the identifier of a library function.
#[derive(Debug)]
pub enum ParseLibIdError {
    /// The text does not start with the letter `l`.
    NoLeadingL,
    /// What follows the letter is not an unsigned integer.
    InvalidIndex(ParseIntError),
}

impl LibId {
    /// The text of the identifier.
    pub open spec fn shown(self) -> Seq<char> {
        seq!['l'] + decimal(self.0 as nat)
    }

    /// The text of the identifier.
    pub fn to_text(&self) -> (r: String)
        ensures
            r@ == self.shown(),
    {
        let mut s: String = String::new();
        s.push('l');
        s.append(decimal_text(self.0).as_str());
        assert(s@ =~= self.shown());
        s
    }

    /// Reads an identifier.
    pub fn parse(s: &str) -> (r: Result<LibId, ParseLibIdError>)
        ensures
            if s@.len() == 0 || s@[0] != 'l' {
                r is Err && r->Err_0 is NoLeadingL
            } else {
                match unsigned_value(s@.drop_first()) {
                    Some(n) if n <= usize::MAX => r is Ok && r->Ok_0.0 == n,
                    _ => r is Err && r->Err_0 is InvalidIndex,
                }
            },
    {
        let cs: Vec<char> = to_chars(s);
        if cs.len() == 0 || cs[0] != 'l' {
            return Err(ParseLibIdError::NoLeadingL);
        }
        let rest: String = text_of(&cs, 1, cs.len());
        assert(rest@ =~= s@.drop_first());
        match parse_usize(rest.as_str()) {
            Ok(n) => Ok(LibId(n)),
            Err(e) => Err(ParseLibIdError::InvalidIndex(e)),
        }
    }
}

/// Reading back the text of an identifier gives the identifier.
pub proof fn law_lib_id_reads_back(id: LibId)
    ensures
        id.shown().len() > 0,
        id.shown()[0] == 'l',
        unsigned_value(id.shown().drop_first()) == Some(id.0 as nat),
{
    assert(id.shown().drop_first() =~= decimal(id.0 as nat));
    crate::text::law_decimal_reads_back(id.0 as nat);
}

/// Operations that can be compared without their arguments.
pub trait DiscriminantEq: Sized {
    open spec fn s_discriminant_eq(&self, other: &Self) -> bool {
        arbitrary()
    }

    /// Whether two operations are the same.
    fn discriminant_eq(&self, other: &Self) -> (r: bool)
        ensures
            r == self.s_discriminant_eq(other),
    ;
}

/// Where a pattern matches: the class that it matches, and the classes that
/// its variables stand for.
#[derive(Clone, Debug, PartialEq, Eq, PartialOrd, Ord, Hash)]
pub struct Match {
    pub class: usize,
    pub actuals: Vec<usize>,
}

impl View for Match {
    type V = (usize, Seq<usize>);

    open spec fn view(&self) -> (usize, Seq<usize>) {
        (self.class, self.actuals@)
    }
}

impl Match {
    pub fn new(class: usize, actuals: Vec<usize>) -> (r: Self)
        ensures
            r@ == (class, actuals@),
    {
        Match { class, actuals }
    }
}

/// The matches as pairs.
pub open spec fn match_views(s: Seq<Match>) -> Seq<(usize, Seq<usize>)> {
    Seq::new(s.len(), |i: int| s[i]@)
}

/// Whether `a` comes before `b` in the order of dictionaries, or is `b`.
pub open spec fn ids_le(a: Seq<usize>, b: Seq<usize>) -> bool
    decreases a.len(),
{
    if a.len() == 0 {
        true
    } else if b.len() == 0 {
        false
    } else {
        a[0] < b[0] || (a[0] == b[0] && ids_le(a.drop_first(), b.drop_first()))
    }
}

/// Matches in the order of their classes, and of what their variables stand
/// for.
pub open spec fn match_order() -> spec_fn((usize, Seq<usize>), (usize, Seq<usize>)) -> bool {
    |a: (usize, Seq<usize>), b: (usize, Seq<usize>)|
        a.0 < b.0 || (a.0 == b.0 && ids_le(a.1, b.1))
}

proof fn lemma_ids_le_total(a: Seq<usize>, b: Seq<usize>)
    ensures
        ids_le(a, b) || ids_le(b, a),
    decreases a.len(),
{
    if a.len() > 0 && b.len() > 0 {
        lemma_ids_le_total(a.drop_first(), b.drop_first());
    }
}

proof fn lemma_ids_le_transitive(a: Seq<usize>, b: Seq<usize>, c: Seq<usize>)
    requires
        ids_le(a, b),
        ids_le(b, c),
    ensures
        ids_le(a, c),
    decreases a.len(),
{
    if a.len() > 0 && b.len() > 0 && c.len() > 0 && a[0] == b[0] && b[0] == c[0] {
        lemma_ids_le_transitive(a.drop_first(), b.drop_first(), c.drop_first());
    }
}

/// Matches are ordered one way or the other.
pub proof fn law_matches_are_ordered()
    ensures
        total(match_order()),
        transitive(match_order()),
{
    let le = match_order();
    assert forall|a: (usize, Seq<usize>), b: (usize, Seq<usize>)| #[trigger] le(a, b) || le(
        b,
        a,
    ) by {
        lemma_ids_le_total(a.1, b.1);
    }
    assert forall|
        a: (usize, Seq<usize>),
        b: (usize, Seq<usize>),
        c: (usize, Seq<usize>),
    | #[trigger] le(a, b) && #[trigger] le(b, c) implies le(a, c) by {
        if a.0 == b.0 && b.0 == c.0 {
            lemma_ids_le_transitive(a.1, b.1, c.1);
        }
    }
}

fn ids_in_order(a: &Vec<usize>, b: &Vec<usize>) -> (r: bool)
    ensures
        r == ids_le(a@, b@),
{
    let mut i: usize = 0;
    assert(a@.skip(0) =~= a@ && b@.skip(0) =~= b@);
    while i < a.len() && i < b.len()
        invariant
            i <= a@.len(),
            i <= b@.len(),
            ids_le(a@, b@) == ids_le(a@.skip(i as int), b@.skip(i as int)),
        decreases a@.len() - i,
    {
        let ghost x = a@.skip(i as int);
        let ghost y = b@.skip(i as int);
        assert(x.drop_first() =~= a@.skip(i + 1));
        assert(y.drop_first() =~= b@.skip(i + 1));
        if a[i] < b[i] {
            return true;
        }
        if a[i] > b[i] {
            return false;
        }
        i = i + 1;
    }
    i == a.len()
}

/// Puts a match at its place.
pub(crate) fn add_match(v: &mut Vec<Match>, m: Match)
    requires
        in_order(match_views(old(v)@), match_order()),
    ensures
        in_order(match_views(final(v)@), match_order()),
        match_views(final(v)@).to_multiset() == match_views(old(v)@).to_multiset().insert(m@),
{
    let ghost t = match_views(v@);
    let ghost le = match_order();
    let ghost x = m@;
    proof {
        law_matches_are_ordered();
    }
    let mut p: usize = v.len();
    while p > 0 && !(v[p - 1].class < m.class || (v[p - 1].class == m.class && ids_in_order(
        &v[p - 1].actuals,
        &m.actuals,
    )))
        invariant
            p <= v@.len(),
            t == match_views(v@),
            le == match_order(),
            x == m@,
            forall|j: int| p <= j < t.len() ==> !le(#[trigger] t[j], x),
        decreases p,
    {
        assert(!le(t[p - 1], x));
        p = p - 1;
    }
    proof {
        if p > 0 {
            assert(le(t[p - 1], x));
        }
        lemma_placed_at(t, x, le, p as int);
        lemma_placed(t, x, le);
    }
    v.insert(p, m);
    assert(match_views(v@) =~= t.insert(p as int, x));
}

} // verus!
