//! The analysis that finds the types of each class.
use crate::ast_node::{AstNode, Duplicate, NodeView};
use crate::egraph::EGraph;
use crate::extract::beam_pareto::{ClassMatch, Shown, TypeInfo};
use crate::rewrites::type_match::HasType;
use crate::text::texts;
use vstd::prelude::*;
use vstd::std_specs::cmp::PartialEqSpec;

verus! {

/// Whether a type is among others.
pub open spec fn type_in<T: PartialEq>(s: Seq<T>, ty: T) -> bool {
    exists|i: int| 0 <= i < s.len() && (#[trigger] s[i]).eq_spec(&ty)
}

/// The types of `a`, and the first `k` of `b` that are not there yet.
pub open spec fn types_united<T: PartialEq>(a: Seq<T>, b: Seq<T>, k: nat) -> Seq<T>
    decreases k,
{
    if k == 0 {
        a
    } else {
        let s = types_united(a, b, (k - 1) as nat);
        if type_in(s, b[k - 1]) {
            s
        } else {
            s.push(b[k - 1])
        }
    }
}

/// Whether the same types are in both.
pub open spec fn same_types<T: PartialEq>(a: Seq<T>, b: Seq<T>) -> bool {
    &&& forall|i: int| 0 <= i < a.len() ==> type_in(b, #[trigger] a[i])
    &&& forall|i: int| 0 <= i < b.len() ==> type_in(a, #[trigger] b[i])
}

/// The types that the values of a class may have, each once.
#[derive(Debug)]
pub struct TypeSet<T> {
    pub set: Vec<T>,
}

impl<T: PartialEq> TypeSet<T> {
    /// Whether a type is in the set.
    pub fn contains(&self, ty: &T) -> (r: bool)
        requires
            T::obeys_eq_spec(),
        ensures
            r == type_in(self.set@, *ty),
    {
        let n: usize = self.set.len();
        for i in 0..n
            invariant
                T::obeys_eq_spec(),
                n == self.set@.len(),
                forall|k: int| 0 <= k < i ==> !(#[trigger] self.set@[k]).eq_spec(ty),
        {
            if self.set[i] == *ty {
                return true;
            }
        }
        false
    }

    /// Whether every type of another set is in this one.
    fn covers(&self, other: &TypeSet<T>) -> (r: bool)
        requires
            T::obeys_eq_spec(),
        ensures
            r == forall|i: int|
                0 <= i < other.set@.len() ==> type_in(self.set@, #[trigger] other.set@[i]),
    {
        let n: usize = other.set.len();
        for i in 0..n
            invariant
                T::obeys_eq_spec(),
                n == other.set@.len(),
                forall|k: int| 0 <= k < i ==> type_in(self.set@, #[trigger] other.set@[k]),
        {
            if !self.contains(&other.set[i]) {
                return false;
            }
        }
        true
    }

    /// Whether the same types are in both sets.
    pub fn same(&self, other: &TypeSet<T>) -> (r: bool)
        requires
            T::obeys_eq_spec(),
        ensures
            r == same_types(self.set@, other.set@),
    {
        self.covers(other) && other.covers(self)
    }
}

impl<T: PartialEq> HasType<T> for TypeSet<T> {
    open spec fn s_has(&self, ty: &T) -> bool {
        type_in(self.set@, *ty)
    }

    fn has(&self, ty: &T) -> (r: bool) {
        self.contains(ty)
    }
}

impl<T: Shown> ClassMatch for TypeSet<T> {
    open spec fn s_types(&self) -> Seq<Seq<char>> {
        Seq::new(self.set@.len(), |i: int| self.set@[i].s_shown())
    }

    fn get_type(&self) -> (r: Vec<String>) {
        let mut r: Vec<String> = Vec::new();
        let n: usize = self.set.len();
        for i in 0..n
            invariant
                n == self.set@.len(),
                r@.len() == i,
                forall|k: int| 0 <= k < i ==> (#[trigger] r@[k])@ == self.set@[k].s_shown(),
        {
            r.push(self.set[i].shown());
        }
        assert(texts(r@) =~= self.s_types());
        r
    }
}

/// The type that unites the first `k` of these types.
pub open spec fn types_merged<Op: TypeInfo<T>, T>(s: Seq<T>, k: nat) -> T
    decreases k,
{
    if k <= 1 {
        s[0]
    } else {
        Op::s_merge_types(types_merged::<Op, T>(s, (k - 1) as nat), s[k - 1])
    }
}

/// The types of the arguments of a node.
pub open spec fn arg_types<Op: TypeInfo<T>, T>(
    g: EGraph<Op, TypeSet<T>>,
    node: NodeView<Op>,
) -> Seq<T> {
    Seq::new(
        node.args.len(),
        |j: int|
            {
                let s = g.class(node.args[j]).data.set@;
                types_merged::<Op, T>(s, s.len())
            },
    )
}

/// An analysis of the types alone.
#[derive(Clone, Copy, Debug)]
pub struct SimpleAnalysis {}

impl Default for SimpleAnalysis {
    fn default() -> (r: Self) {
        SimpleAnalysis {  }
    }
}

impl SimpleAnalysis {
    /// Merges the types of two classes into `to`. The result tells whether
    /// `to` has changed, and whether it differs from `from`.
    pub fn merge<T: PartialEq + Duplicate>(&self, to: &mut TypeSet<T>, from: &TypeSet<T>) -> (r: (
        bool,
        bool,
    ))
        requires
            T::obeys_eq_spec(),
        ensures
            final(to).set@ == types_united(old(to).set@, from.set@, from.set@.len()),
            r.0 == !same_types(old(to).set@, final(to).set@),
            r.1 == !same_types(final(to).set@, from.set@),
    {
        let ghost start = to.set@;
        let mut before: TypeSet<T> = TypeSet { set: Vec::new() };
        let m: usize = to.set.len();
        for i in 0..m
            invariant
                m == to.set@.len(),
                before.set@ == to.set@.take(i as int),
        {
            before.set.push(to.set[i].duplicate());
            assert(before.set@ =~= to.set@.take(i + 1));
        }
        assert(before.set@ =~= start);
        let n: usize = from.set.len();
        for i in 0..n
            invariant
                T::obeys_eq_spec(),
                n == from.set@.len(),
                to.set@ == types_united(start, from.set@, i as nat),
        {
            if !to.contains(&from.set[i]) {
                to.set.push(from.set[i].duplicate());
            }
        }
        (!before.same(to), !to.same(from))
    }

    /// The type of a node, from those of its arguments.
    pub fn make<Op: TypeInfo<T>, T: Duplicate>(
        &self,
        egraph: &EGraph<Op, TypeSet<T>>,
        enode: &AstNode<Op>,
    ) -> (r: TypeSet<T>)
        requires
            egraph.wf(),
            egraph.args_valid(enode@),
            forall|j: int|
                0 <= j < enode@.args.len() ==> egraph.class(
                    #[trigger] enode@.args[j],
                ).data.set@.len() > 0,
        ensures
            r.set@ == seq![Op::s_rtype(enode@, arg_types(*egraph, enode@))],
    {
        let n: usize = enode.args.len();
        let mut tys: Vec<T> = Vec::new();
        for j in 0..n
            invariant
                egraph.wf(),
                egraph.args_valid(enode@),
                forall|j: int|
                    0 <= j < enode@.args.len() ==> egraph.class(
                        #[trigger] enode@.args[j],
                    ).data.set@.len() > 0,
                n == enode@.args.len(),
                tys@.len() == j,
                forall|k: int| 0 <= k < j ==> (#[trigger] tys@[k]) == arg_types(*egraph, enode@)[k],
        {
            assert(enode@.args[j as int] < egraph.slots@.len());
            let set: &Vec<T> = &egraph.get(enode.args[j]).data.set;
            let m: usize = set.len();
            let mut ty: T = set[0].duplicate();
            for k in 1..m
                invariant
                    m == set@.len(),
                    1 <= k,
                    ty == types_merged::<Op, T>(set@, k as nat),
            {
                ty = Op::merge_types(&ty, &set[k]);
            }
            tys.push(ty);
        }
        assert(tys@ =~= arg_types(*egraph, enode@));
        let ty: T = Op::get_rtype(enode, &tys);
        let mut set: Vec<T> = Vec::new();
        set.push(ty);
        assert(set@ =~= seq![ty]);
        TypeSet { set }
    }
}

/// Merging adds types and loses none: what is in either class is in the
/// united one, and nothing else.
pub proof fn law_merged_types<T: PartialEq>(a: Seq<T>, b: Seq<T>, k: nat, ty: T)
    requires
        k <= b.len(),
        forall|x: T, y: T, z: T|
            #[trigger] x.eq_spec(&y) && #[trigger] y.eq_spec(&z) ==> x.eq_spec(&z),
        forall|x: T| #[trigger] x.eq_spec(&x),
    ensures
        type_in(types_united(a, b, k), ty) <==> type_in(a, ty) || type_in(b.take(k as int), ty),
    decreases k,
{
    let s = types_united(a, b, k);
    if k == 0 {
        assert(b.take(0).len() == 0);
    } else {
        let before = types_united(a, b, (k - 1) as nat);
        let last = b[k - 1];
        law_merged_types(a, b, (k - 1) as nat, ty);
        let p = b.take(k - 1);
        let q = b.take(k as int);
        assert(q =~= p.push(last));
        if type_in(p, ty) {
            let i = choose|i: int| 0 <= i < p.len() && (#[trigger] p[i]).eq_spec(&ty);
            assert(q[i] == p[i]);
        }
        if last.eq_spec(&ty) {
            assert(q[k - 1] == last);
        }
        if type_in(q, ty) {
            let i = choose|i: int| 0 <= i < q.len() && (#[trigger] q[i]).eq_spec(&ty);
            if i < k - 1 {
                assert(p[i] == q[i]);
            }
        }
        assert(type_in(q, ty) <==> type_in(p, ty) || last.eq_spec(&ty));
        if type_in(before, last) {
            let i = choose|i: int| 0 <= i < before.len() && (#[trigger] before[i]).eq_spec(&last);
            if last.eq_spec(&ty) {
                assert(before[i].eq_spec(&ty));
            }
        } else {
            if type_in(before, ty) {
                let i = choose|i: int|
                    0 <= i < before.len() && (#[trigger] before[i]).eq_spec(&ty);
                assert(s[i] == before[i]);
            }
            assert(s[before.len() as int] == last);
            if type_in(s, ty) {
                let i = choose|i: int| 0 <= i < s.len() && (#[trigger] s[i]).eq_spec(&ty);
                if i < before.len() {
                    assert(before[i] == s[i]);
                }
            }
        }
    }
}

} // verus!
