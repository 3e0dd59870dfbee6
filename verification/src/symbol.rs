//! Names as interned symbols.
use egg::Symbol;
use vstd::prelude::*;

verus! {

/// An interned string of `egg`.
#[verifier::external_type_specification]
#[verifier::external_body]
pub struct ExSymbol(egg::Symbol);

/// The string of a symbol.
pub uninterp spec fn symbol_name(s: egg::Symbol) -> Seq<char>;

/// `Clone` of `egg::Symbol`, which is `Copy`: the same symbol.
pub assume_specification[ <egg::Symbol as Clone>::clone ](s: &egg::Symbol) -> (r: egg::Symbol)
    ensures
        r == *s,
;

/// Whether no other symbol has the same string.
pub open spec fn only_symbol(s: egg::Symbol) -> bool {
    forall|t: egg::Symbol| #[trigger] symbol_name(t) == symbol_name(s) ==> t == s
}

/// `egg::Symbol::new`: the symbol of a string, which is the only one with it.
#[verifier::external_body]
pub(crate) fn intern(name: &str) -> (r: Symbol)
    ensures
        symbol_name(r) == name@,
        only_symbol(r),
{
    Symbol::new(name)
}

/// `egg::Symbol::as_str`: the string of a symbol.
#[verifier::external_body]
pub(crate) fn name_of(s: &Symbol) -> (r: String)
    ensures
        r@ == symbol_name(*s),
{
    s.as_str().to_owned()
}

/// Equality of `egg::Symbol`: symbols are equal where their strings are, and
/// then they are one symbol.
#[verifier::external_body]
pub(crate) fn same_symbol(a: &Symbol, b: &Symbol) -> (r: bool)
    ensures
        r == (*a == *b),
        r == (symbol_name(*a) == symbol_name(*b)),
{
    a == b
}

} // verus!
