//! Conditions on the types of the variables of a pattern.
use crate::assoc::{keys_differ, lemma_entry, text_entries, TextMap};
use crate::ast_node::Duplicate;
use crate::egraph::EGraph;
use crate::extract::beam_pareto::ISAXCost;
use crate::number::Number;
use crate::text::{decimal, text_of, texts, to_chars, unsigned_value};
use crate::text_split::{
    bare, char_seqs, contains, has_part, part, split, split_on, strip_all, trim, trim_round,
    trimmed, without_prefixes,
};
use egg::Var;
use vstd::prelude::*;
use vstd::std_specs::cmp::PartialEqSpec;

verus! {

/// Types that can be read from a text.
pub trait ReadType: Sized {
    open spec fn s_read_type(s: Seq<char>) -> Option<Self> {
        arbitrary()
    }

    fn read_type(s: &str) -> (r: Option<Self>)
        ensures
            r == Self::s_read_type(s@),
    ;
}

/// Data of a class that tells whether its values have a type.
pub trait HasType<T: PartialEq>: Sized {
    open spec fn s_has(&self, ty: &T) -> bool {
        arbitrary()
    }

    fn has(&self, ty: &T) -> (r: bool)
        requires
            T::obeys_eq_spec(),
        ensures
            r == self.s_has(ty),
    ;
}

impl<N: Number, T: PartialEq> HasType<T> for ISAXCost<N, T> {
    open spec fn s_has(&self, ty: &T) -> bool {
        self.ty.eq_spec(ty)
    }

    fn has(&self, ty: &T) -> (r: bool) {
        self.has_type(ty)
    }
}

/// Why a condition cannot be read.
#[derive(Clone, Copy, Debug, PartialEq, Eq, Structural)]
pub enum ConditionError {
    /// It does not start with a round bracket.
    MissingOpen,
    /// It does not end with a round bracket.
    MissingClose,
    /// A part is not a variable and a type with a colon between them.
    InvalidFormat,
    /// A list of types does not start with a square bracket.
    MissingOpenBracket,
    /// A list of types does not end with a square bracket.
    MissingCloseBracket,
    /// A type cannot be read.
    BadType,
    /// A variable cannot be read.
    BadVar,
    /// A condition on all variables has no colon.
    InvalidAll,
}

/// The variable that a text stands for: a question mark and a name, or a
/// question mark, a hash sign and a number.
pub open spec fn var_of(s: Seq<char>) -> Option<Seq<char>> {
    if s.len() >= 2 && s[0] == '?' && s[1] == '#' {
        match unsigned_value(s.skip(2)) {
            Some(n) if n <= u32::MAX => Some(seq!['?', '#'] + decimal(n)),
            _ => None,
        }
    } else if s.len() >= 2 && s[0] == '?' {
        Some(s)
    } else {
        None
    }
}

/// `FromStr` and `Display` of `egg::Var`: a variable starts with a question
/// mark. What follows a hash sign must be a 32-bit number; it is shown without
/// leading zeros. Any other variable is shown as it was written.
#[verifier::external_body]
fn read_var(s: &str) -> (r: Option<String>)
    ensures
        match r {
            Some(v) => var_of(s@) == Some(v@),
            None => var_of(s@) is None,
        },
{
    s.parse::<Var>().ok().map(|v| v.to_string())
}

/// The types that the first `k` texts stand for.
pub open spec fn types_read<T: ReadType>(s: Seq<Seq<char>>, k: nat) -> Option<Seq<T>>
    decreases k,
{
    if k == 0 {
        Some(Seq::empty())
    } else {
        match (types_read::<T>(s, (k - 1) as nat), T::s_read_type(trimmed(s[k - 1]))) {
            (Some(ts), Some(t)) => Some(ts.push(t)),
            _ => None,
        }
    }
}

/// The types that a text with strokes between them stands for.
pub open spec fn type_list<T: ReadType>(s: Seq<char>) -> Option<Seq<T>> {
    let parts = split(s, '|');
    types_read::<T>(parts, parts.len())
}

/// The variable and the types of one part of a condition.
pub open spec fn pair_read<T: ReadType>(s: Seq<char>) -> Result<
    (Seq<char>, Seq<T>),
    ConditionError,
> {
    let parts = split(s, ':');
    if parts.len() != 2 {
        Err(ConditionError::InvalidFormat)
    } else {
        let var = var_of(trimmed(parts[0]));
        let right = trimmed(parts[1]);
        if has_part(right, "["@) {
            if right[0] != '[' {
                Err(ConditionError::MissingOpenBracket)
            } else if right.last() != ']' || right.len() < 2 {
                Err(ConditionError::MissingCloseBracket)
            } else {
                match (type_list::<T>(right.subrange(1, right.len() - 1)), var) {
                    (None, _) => Err(ConditionError::BadType),
                    (Some(_), None) => Err(ConditionError::BadVar),
                    (Some(ts), Some(v)) => Ok((v, ts)),
                }
            }
        } else {
            match (var, T::s_read_type(right)) {
                (None, _) => Err(ConditionError::BadVar),
                (Some(_), None) => Err(ConditionError::BadType),
                (Some(v), Some(t)) => Ok((v, seq![t])),
            }
        }
    }
}

/// The condition that the first `k` parts make. A later part for a variable
/// takes the place of an earlier one.
pub open spec fn pairs_read<T: ReadType>(s: Seq<Seq<char>>, k: nat) -> Result<
    Map<Seq<char>, Seq<T>>,
    ConditionError,
>
    decreases k,
{
    if k == 0 {
        Ok(Map::empty())
    } else {
        match pairs_read::<T>(s, (k - 1) as nat) {
            Err(e) => Err(e),
            Ok(m) => match pair_read::<T>(s[k - 1]) {
                Err(e) => Err(e),
                Ok((v, ts)) => Ok(m.insert(v, ts)),
            },
        }
    }
}

/// The condition that a text stands for.
pub open spec fn condition_read<T: ReadType>(s: Seq<char>) -> Result<
    Map<Seq<char>, Seq<T>>,
    ConditionError,
> {
    if s.len() == 0 || s[0] != '(' {
        Err(ConditionError::MissingOpen)
    } else if s.len() < 2 || s.last() != ')' {
        Err(ConditionError::MissingClose)
    } else {
        let parts = split(s.subrange(1, s.len() - 1), ',');
        pairs_read::<T>(parts, parts.len())
    }
}

/// The types of a condition on all variables.
pub open spec fn all_types<T: ReadType>(s: Seq<char>) -> Result<Seq<T>, ConditionError> {
    let parts = split(bare(without_prefixes(s, "all"@)), ':');
    if parts.len() < 2 {
        Err(ConditionError::InvalidAll)
    } else {
        let right = trimmed(parts[1]);
        let listed = if right.len() >= 2 && right[0] == '[' && right.last() == ']' {
            right.subrange(1, right.len() - 1)
        } else {
            right
        };
        match type_list::<T>(listed) {
            Some(ts) => Ok(ts),
            None => Err(ConditionError::BadType),
        }
    }
}

/// A condition: the types that some variables may have.
#[derive(Debug)]
pub struct TypeMatch<T> {
    pub type_map: TextMap<Vec<T>>,
}

impl<T> View for TypeMatch<T> {
    type V = Map<Seq<char>, Seq<T>>;

    open spec fn view(&self) -> Map<Seq<char>, Seq<T>> {
        Map::new(
            |v: Seq<char>| self.type_map@.dom().contains(v),
            |v: Seq<char>| self.type_map@[v]@,
        )
    }
}

impl<T> Default for TypeMatch<T> {
    /// No condition.
    fn default() -> (r: Self)
        ensures
            r.wf(),
            r@ == Map::<Seq<char>, Seq<T>>::empty(),
    {
        let r: TypeMatch<T> = TypeMatch { type_map: TextMap::new() };
        assert(r@ =~= Map::<Seq<char>, Seq<T>>::empty());
        r
    }
}

impl<T> TypeMatch<T> {
    /// Whether no two entries have the same variable.
    pub open spec fn wf(&self) -> bool {
        self.type_map.wf()
    }

    /// The condition with these types.
    pub fn new(type_map: TextMap<Vec<T>>) -> (r: Self)
        ensures
            r.type_map == type_map,
    {
        TypeMatch { type_map }
    }

    /// Whether there is no condition.
    pub fn is_empty(&self) -> (r: bool)
        requires
            self.wf(),
        ensures
            r == (self@ == Map::<Seq<char>, Seq<T>>::empty()),
    {
        let r: bool = self.type_map.entries.len() == 0;
        proof {
            if r {
                assert(self@ =~= Map::<Seq<char>, Seq<T>>::empty());
            } else {
                let s = text_entries(self.type_map.entries@);
                lemma_entry(s, 0);
                assert(self@.dom().contains(s[0].0));
            }
        }
        r
    }

    /// The variables of the condition.
    pub fn vars(&self) -> (r: Vec<String>)
        requires
            self.wf(),
        ensures
            texts(r@).no_duplicates(),
            forall|v: Seq<char>| #[trigger] texts(r@).contains(v) <==> self@.dom().contains(v),
    {
        let ghost s = text_entries(self.type_map.entries@);
        let mut r: Vec<String> = Vec::new();
        let n: usize = self.type_map.entries.len();
        for i in 0..n
            invariant
                n == self.type_map.entries@.len(),
                s == text_entries(self.type_map.entries@),
                r@.len() == i,
                forall|k: int| 0 <= k < i ==> (#[trigger] r@[k])@ == s[k].0,
        {
            r.push(self.type_map.entries[i].0.clone());
        }
        proof {
            let t = texts(r@);
            assert forall|i: int, j: int| 0 <= i < t.len() && 0 <= j < t.len() && i != j implies t[i]
                != t[j] by {
                assert(s[i].0 != s[j].0);
            }
            assert forall|v: Seq<char>| #[trigger] t.contains(v) <==> self@.dom().contains(v) by {
                if t.contains(v) {
                    let i = choose|i: int| 0 <= i < t.len() && t[i] == v;
                    lemma_entry(s, i);
                }
                if self@.dom().contains(v) {
                    let i = choose|i: int| 0 <= i < s.len() && (#[trigger] s[i]).0 == v;
                    assert(t[i] == v);
                }
            }
        }
        r
    }

    /// Whether the classes that the variables stand for have types that the
    /// condition allows. A variable that stands for no class is not asked.
    pub fn check<Op, D>(&self, egraph: &EGraph<Op, D>, subst: &TextMap<usize>) -> (r: bool) where
        D: HasType<T>,
        T: PartialEq,

        requires
            T::obeys_eq_spec(),
            self.wf(),
            subst.wf(),
            egraph.wf(),
            forall|v: Seq<char>| #[trigger]
                subst@.dom().contains(v) ==> subst@[v] < egraph.slots@.len(),
        ensures
            r == forall|v: Seq<char>|
                #![trigger self@.dom().contains(v)]
                self@.dom().contains(v) && subst@.dom().contains(v) ==> allows(
                    egraph.class(subst@[v]).data,
                    self@[v],
                ),
    {
        let ghost s = text_entries(self.type_map.entries@);
        let n: usize = self.type_map.entries.len();
        for i in 0..n
            invariant
                T::obeys_eq_spec(),
                self.wf(),
                subst.wf(),
                egraph.wf(),
                forall|v: Seq<char>| #[trigger]
                    subst@.dom().contains(v) ==> subst@[v] < egraph.slots@.len(),
                n == self.type_map.entries@.len(),
                s == text_entries(self.type_map.entries@),
                forall|k: int|
                    0 <= k < i && subst@.dom().contains((#[trigger] s[k]).0) ==> allows(
                        egraph.class(subst@[s[k].0]).data,
                        s[k].1@,
                    ),
        {
            let entry: &(String, Vec<T>) = &self.type_map.entries[i];
            proof {
                lemma_entry(s, i as int);
                assert(s[i as int] == (entry.0@, entry.1));
                assert(self@.dom().contains(entry.0@));
            }
            if let Some(id) = subst.get(&entry.0) {
                if !has_one_of(&egraph.get(*id).data, &entry.1) {
                    return false;
                }
            }
        }
        proof {
            assert forall|v: Seq<char>|
                #![trigger self@.dom().contains(v)]
                self@.dom().contains(v) && subst@.dom().contains(v) implies allows(
                egraph.class(subst@[v]).data,
                self@[v],
            ) by {
                let i = choose|i: int| 0 <= i < s.len() && (#[trigger] s[i]).0 == v;
                lemma_entry(s, i);
            }
        }
        true
    }
}

/// Whether the values of a class have one of the types.
pub open spec fn allows<D: HasType<T>, T: PartialEq>(data: D, types: Seq<T>) -> bool {
    exists|i: int| 0 <= i < types.len() && data.s_has(&#[trigger] types[i])
}

fn has_one_of<D: HasType<T>, T: PartialEq>(data: &D, types: &Vec<T>) -> (r: bool)
    requires
        T::obeys_eq_spec(),
    ensures
        r == allows(*data, types@),
{
    let n: usize = types.len();
    for i in 0..n
        invariant
            T::obeys_eq_spec(),
            n == types@.len(),
            forall|k: int| 0 <= k < i ==> !data.s_has(&#[trigger] types@[k]),
    {
        if data.has(&types[i]) {
            return true;
        }
    }
    false
}

impl<T: Duplicate> TypeMatch<T> {
    /// The condition that all these variables have one of the types.
    pub fn from_vars(vars: &Vec<String>, types: Vec<T>) -> (r: Self)
        ensures
            r.wf(),
            r@ == Map::new(|v: Seq<char>| texts(vars@).contains(v), |v: Seq<char>| types@),
    {
        let mut type_map: TextMap<Vec<T>> = TextMap::new();
        let n: usize = vars.len();
        let ghost all = texts(vars@);
        for i in 0..n
            invariant
                n == vars@.len(),
                all == texts(vars@),
                type_map.wf(),
                forall|v: Seq<char>| #[trigger]
                    type_map@.dom().contains(v) <==> all.take(i as int).contains(v),
                forall|v: Seq<char>| #[trigger]
                    type_map@.dom().contains(v) ==> type_map@[v]@ == types@,
        {
            let ghost before = type_map@;
            let copy: Vec<T> = copy_all(&types);
            type_map.insert(vars[i].clone(), copy);
            assert forall|v: Seq<char>| #[trigger] type_map@.dom().contains(v) <==> all.take(
                i + 1,
            ).contains(v) by {
                let a = all.take(i as int);
                let b = all.take(i + 1);
                assert(b =~= a.push(all[i as int]));
                if a.contains(v) {
                    let k = choose|k: int| 0 <= k < a.len() && a[k] == v;
                    assert(b[k] == v);
                }
                if v == all[i as int] {
                    assert(b[i as int] == v);
                }
                if b.contains(v) && v != all[i as int] {
                    let k = choose|k: int| 0 <= k < b.len() && b[k] == v;
                    assert(a[k] == v);
                }
                assert(before.dom().contains(v) <==> a.contains(v));
            }
        }
        assert(all.take(n as int) =~= all);
        let r: TypeMatch<T> = TypeMatch { type_map };
        assert(r@ =~= Map::new(|v: Seq<char>| all.contains(v), |v: Seq<char>| types@));
        r
    }

    /// A second condition that is the same.
    pub fn duplicate(&self) -> (r: Self)
        requires
            self.wf(),
        ensures
            r.wf(),
            r@ == self@,
    {
        let mut entries: Vec<(String, Vec<T>)> = Vec::new();
        let n: usize = self.type_map.entries.len();
        let ghost s = self.type_map.entries@;
        for i in 0..n
            invariant
                n == s.len(),
                s == self.type_map.entries@,
                entries@.len() == i,
                forall|k: int|
                    0 <= k < i ==> (#[trigger] entries@[k]).0@ == s[k].0@ && entries@[k].1@
                        == s[k].1@,
        {
            entries.push(
                (self.type_map.entries[i].0.clone(), copy_all(&self.type_map.entries[i].1)),
            );
        }
        let r: TypeMatch<T> = TypeMatch { type_map: TextMap { entries } };
        proof {
            let a = text_entries(s);
            let b = text_entries(r.type_map.entries@);
            assert(keys_differ(b)) by {
                assert forall|i: int, j: int| 0 <= i < j < b.len() implies (#[trigger] b[i]).0 != (
                #[trigger] b[j]).0 by {
                    assert(a[i].0 != a[j].0);
                }
            }
            assert forall|v: Seq<char>| self@.dom().contains(v) <==> r@.dom().contains(v) by {
                if self@.dom().contains(v) {
                    let i = choose|i: int| 0 <= i < a.len() && (#[trigger] a[i]).0 == v;
                    lemma_entry(b, i);
                }
                if r@.dom().contains(v) {
                    let i = choose|i: int| 0 <= i < b.len() && (#[trigger] b[i]).0 == v;
                    lemma_entry(a, i);
                }
            }
            assert forall|v: Seq<char>| self@.dom().contains(v) implies self@[v] == r@[v] by {
                let i = choose|i: int| 0 <= i < a.len() && (#[trigger] a[i]).0 == v;
                lemma_entry(a, i);
                lemma_entry(b, i);
            }
            assert(r@ =~= self@);
        }
        r
    }
}

/// The same values once more.
fn copy_all<T: Duplicate>(v: &Vec<T>) -> (r: Vec<T>)
    ensures
        r@ == v@,
{
    let mut r: Vec<T> = Vec::new();
    let n: usize = v.len();
    for i in 0..n
        invariant
            n == v@.len(),
            r@ == v@.take(i as int),
    {
        r.push(v[i].duplicate());
        assert(r@ =~= v@.take(i + 1));
    }
    assert(r@ =~= v@);
    r
}

fn read_types<T: ReadType>(s: &Vec<char>) -> (r: Option<Vec<T>>)
    ensures
        match r {
            Some(ts) => type_list::<T>(s@) == Some(ts@),
            None => type_list::<T>(s@) is None,
        },
{
    let parts: Vec<Vec<char>> = split_on(s, '|');
    let ghost all = split(s@, '|');
    let n: usize = parts.len();
    let mut ts: Vec<T> = Vec::new();
    assert(ts@ =~= Seq::empty());
    for i in 0..n
        invariant
            n == parts@.len() == all.len(),
            all == char_seqs(parts@),
            all == split(s@, '|'),
            types_read::<T>(all, i as nat) == Some(ts@),
    {
        let text: Vec<char> = trim(&parts[i]);
        assert(all[i as int] == parts@[i as int]@);
        let word: String = text_of(&text, 0, text.len());
        assert(word@ =~= text@);
        match T::read_type(word.as_str()) {
            Some(t) => {
                ts.push(t);
            },
            None => {
                proof {
                    lemma_types_stop::<T>(all, (i + 1) as nat, n as nat);
                }
                return None;
            },
        }
    }
    Some(ts)
}

proof fn lemma_types_stop<T: ReadType>(s: Seq<Seq<char>>, k: nat, n: nat)
    requires
        types_read::<T>(s, k) is None,
        k <= n,
    ensures
        types_read::<T>(s, n) is None,
    decreases n - k,
{
    if k < n {
        lemma_types_stop::<T>(s, k, (n - 1) as nat);
    }
}

fn read_pair<T: ReadType>(s: &Vec<char>) -> (r: Result<(String, Vec<T>), ConditionError>)
    ensures
        match r {
            Ok((v, ts)) => pair_read::<T>(s@) == Ok::<_, ConditionError>((v@, ts@)),
            Err(e) => pair_read::<T>(s@) == Err::<(Seq<char>, Seq<T>), _>(e),
        },
{
    let parts: Vec<Vec<char>> = split_on(s, ':');
    if parts.len() != 2 {
        return Err(ConditionError::InvalidFormat);
    }
    let ghost all = char_seqs(parts@);
    assert(all[0] == parts@[0]@ && all[1] == parts@[1]@);
    let left: Vec<char> = trim(&parts[0]);
    let name: String = text_of(&left, 0, left.len());
    assert(name@ =~= left@);
    let right: Vec<char> = trim(&parts[1]);
    let n: usize = right.len();
    if contains(&right, "[") {
        proof {
            reveal_strlit("[");
            assert(right@.len() > 0) by {
                if right@.len() == 0 {
                    assert(crate::text_split::place_from(right@, "["@, 0) is None);
                }
            }
        }
        if right[0] != '[' {
            return Err(ConditionError::MissingOpenBracket);
        }
        if right[n - 1] != ']' || n < 2 {
            return Err(ConditionError::MissingCloseBracket);
        }
        let listed: Vec<char> = part(&right, 1, n - 1);
        match read_types::<T>(&listed) {
            None => Err(ConditionError::BadType),
            Some(ts) => match read_var(name.as_str()) {
                None => Err(ConditionError::BadVar),
                Some(v) => Ok((v, ts)),
            },
        }
    } else {
        match read_var(name.as_str()) {
            None => Err(ConditionError::BadVar),
            Some(v) => {
                let word: String = text_of(&right, 0, n);
                assert(word@ =~= right@);
                match T::read_type(word.as_str()) {
                    None => Err(ConditionError::BadType),
                    Some(t) => {
                        let mut ts: Vec<T> = Vec::new();
                        ts.push(t);
                        assert(ts@ =~= seq![t]);
                        Ok((v, ts))
                    },
                }
            },
        }
    }
}

proof fn lemma_pairs_stop<T: ReadType>(s: Seq<Seq<char>>, k: nat, n: nat)
    requires
        pairs_read::<T>(s, k) is Err,
        k <= n,
    ensures
        pairs_read::<T>(s, n) == pairs_read::<T>(s, k),
    decreases n - k,
{
    if k < n {
        lemma_pairs_stop::<T>(s, k, (n - 1) as nat);
    }
}

impl<T: ReadType> TypeMatch<T> {
    /// Reads a condition: variables and their types, such as
    /// `(?x: int, ?y: [int|bool])`.
    pub fn parse(s: &str) -> (r: Result<Self, ConditionError>)
        ensures
            match r {
                Ok(c) => c.wf() && condition_read::<T>(s@) == Ok::<_, ConditionError>(c@),
                Err(e) => condition_read::<T>(s@) == Err::<Map<Seq<char>, Seq<T>>, _>(e),
            },
    {
        let cs: Vec<char> = to_chars(s);
        let n: usize = cs.len();
        if n == 0 || cs[0] != '(' {
            return Err(ConditionError::MissingOpen);
        }
        if n < 2 || cs[n - 1] != ')' {
            return Err(ConditionError::MissingClose);
        }
        let inner: Vec<char> = part(&cs, 1, n - 1);
        let parts: Vec<Vec<char>> = split_on(&inner, ',');
        let ghost all = split(inner@, ',');
        let m: usize = parts.len();
        let mut c: TypeMatch<T> = TypeMatch::default();
        for i in 0..m
            invariant
                m == parts@.len() == all.len(),
                all == char_seqs(parts@),
                condition_read::<T>(s@) == pairs_read::<T>(all, m as nat),
                c.wf(),
                pairs_read::<T>(all, i as nat) == Ok::<_, ConditionError>(c@),
        {
            assert(all[i as int] == parts@[i as int]@);
            let ghost before = c@;
            match read_pair::<T>(&parts[i]) {
                Ok((v, ts)) => {
                    let ghost k = v@;
                    let ghost t = ts@;
                    c.type_map.insert(v, ts);
                    assert(c@ =~= before.insert(k, t));
                },
                Err(e) => {
                    proof {
                        lemma_pairs_stop::<T>(all, (i + 1) as nat, m as nat);
                    }
                    return Err(e);
                },
            }
        }
        Ok(c)
    }
}

/// Reads the types of a condition on all variables, such as `all(t: int)`.
pub fn read_all_types<T: ReadType>(s: &Vec<char>) -> (r: Result<Vec<T>, ConditionError>)
    ensures
        match r {
            Ok(ts) => all_types::<T>(s@) == Ok::<_, ConditionError>(ts@),
            Err(e) => all_types::<T>(s@) == Err::<Seq<T>, _>(e),
        },
{
    let stripped: Vec<char> = trim_round(&strip_all(s, "all"));
    let parts: Vec<Vec<char>> = split_on(&stripped, ':');
    if parts.len() < 2 {
        return Err(ConditionError::InvalidAll);
    }
    let ghost all = char_seqs(parts@);
    assert(all[1] == parts@[1]@);
    let right: Vec<char> = trim(&parts[1]);
    let n: usize = right.len();
    let listed: Vec<char> = if n >= 2 && right[0] == '[' && right[n - 1] == ']' {
        part(&right, 1, n - 1)
    } else {
        right
    };
    match read_types::<T>(&listed) {
        Some(ts) => Ok(ts),
        None => Err(ConditionError::BadType),
    }
}

} // verus!
