//! What was noted for classes, each in a context.
use crate::extract::fx_map::{fx_get, fx_insert, fx_new};
use crate::extract::lib_context::LibContext;
use rustc_hash::FxBuildHasher;
use std::collections::HashMap;
use vstd::prelude::*;

verus! {

/// Numbers for classes in contexts: one table for each context.
#[derive(Debug)]
pub struct Memo {
    contexts: Vec<LibContext>,
    tables: Vec<HashMap<u64, usize, FxBuildHasher>>,
}

impl Memo {
    /// Whether every context is well formed and has one table.
    pub closed spec fn wf(&self) -> bool {
        &&& self.contexts@.len() == self.tables@.len()
        &&& forall|i: int| 0 <= i < self.contexts@.len() ==> (#[trigger] self.contexts@[i]).wf()
        &&& forall|i: int, j: int|
            0 <= i < j < self.contexts@.len() ==> (#[trigger] self.contexts@[i]).set@ != (
            #[trigger] self.contexts@[j]).set@
    }

    /// Whether the table `i` is that of the context and has a number for the
    /// class.
    spec fn notes(&self, i: int, id: usize, context: Seq<usize>) -> bool {
        &&& 0 <= i < self.contexts@.len()
        &&& self.contexts@[i].set@ == context
        &&& self.tables@[i]@.dom().contains(id as u64)
    }

    /// No numbers.
    pub fn new() -> (r: Self)
        ensures
            r.wf(),
            r@ == Map::<(usize, Seq<usize>), usize>::empty(),
    {
        let r = Memo { contexts: Vec::new(), tables: Vec::new() };
        assert(r@ =~= Map::<(usize, Seq<usize>), usize>::empty());
        r
    }

    /// The place of a context, or the number of contexts where it is not
    /// there.
    fn place(&self, context: &LibContext) -> (r: usize)
        requires
            self.wf(),
            context.wf(),
        ensures
            r <= self.contexts@.len(),
            r < self.contexts@.len() ==> self.contexts@[r as int].set@ == context.set@,
            r == self.contexts@.len() ==> forall|i: int|
                0 <= i < self.contexts@.len() ==> (#[trigger] self.contexts@[i]).set@
                    != context.set@,
    {
        let n: usize = self.contexts.len();
        for i in 0..n
            invariant
                n == self.contexts@.len(),
                self.wf(),
                context.wf(),
                forall|k: int|
                    0 <= k < i ==> (#[trigger] self.contexts@[k]).set@ != context.set@,
        {
            if self.contexts[i].same(context) {
                return i;
            }
        }
        n
    }

    /// The number of a class in a context.
    pub fn get(&self, id: usize, context: &LibContext) -> (r: Option<usize>)
        requires
            self.wf(),
            context.wf(),
        ensures
            r == if self@.dom().contains((id, context.set@)) {
                Some(self@[(id, context.set@)])
            } else {
                None
            },
    {
        let at: usize = self.place(context);
        if at < self.contexts.len() {
            let r: Option<usize> = fx_get(&self.tables[at], id as u64);
            proof {
                let key = (id, context.set@);
                if self.tables@[at as int]@.dom().contains(id as u64) {
                    assert(self.notes(at as int, key.0, key.1));
                    assert(self@.dom().contains(key));
                }
                if self@.dom().contains(key) {
                    let i = choose|i: int| self.notes(i, key.0, key.1);
                    assert(self.contexts@[i].set@ == self.contexts@[at as int].set@);
                    assert(i == at);
                }
            }
            r
        } else {
            None
        }
    }

    /// Notes a number for a class in a context, in place of the one that is
    /// there.
    pub fn insert(&mut self, id: usize, context: &LibContext, v: usize)
        requires
            old(self).wf(),
            context.wf(),
        ensures
            final(self).wf(),
            final(self)@ == old(self)@.insert((id, context.set@), v),
    {
        let ghost start = *self;
        let at: usize = self.place(context);
        if at == self.contexts.len() {
            self.contexts.push(context.duplicate());
            self.tables.push(fx_new());
        }
        let ghost middle = *self;
        assert(middle.contexts@[at as int].set@ == context.set@);
        fx_insert(&mut self.tables[at], id as u64, v);
        proof {
            let key = (id, context.set@);
            let t = start@.insert(key, v);
            assert(self.contexts@ == middle.contexts@);
            assert forall|i: int| 0 <= i < self.tables@.len() && i != at implies (
            #[trigger] self.tables@[i]) == middle.tables@[i] by {}
            assert forall|k: (usize, Seq<usize>)| #[trigger]
                self@.dom().contains(k) == t.dom().contains(k) && (self@.dom().contains(k)
                    ==> self@[k] == t[k]) by {
                if k == key {
                    assert(self.notes(at as int, k.0, k.1));
                } else {
                    if self@.dom().contains(k) {
                        let i = choose|i: int| self.notes(i, k.0, k.1);
                        assert(k.0 as u64 != id as u64 || i != at);
                        assert(start.notes(i, k.0, k.1));
                    }
                    if start@.dom().contains(k) {
                        let i = choose|i: int| start.notes(i, k.0, k.1);
                        assert(self.notes(i, k.0, k.1));
                    }
                }
            }
            assert(self@ =~= t);
        }
    }
}

impl View for Memo {
    type V = Map<(usize, Seq<usize>), usize>;

    closed spec fn view(&self) -> Map<(usize, Seq<usize>), usize> {
        Map::new(
            |k: (usize, Seq<usize>)| exists|i: int| self.notes(i, k.0, k.1),
            |k: (usize, Seq<usize>)|
                self.tables@[choose|i: int| self.notes(i, k.0, k.1)]@[k.0 as u64],
        )
    }
}

} // verus!
