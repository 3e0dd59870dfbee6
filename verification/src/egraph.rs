//! E-graphs: classes of equivalent nodes.
use crate::ast_node::{AstNode, NodeView};
use vstd::prelude::*;

verus! {

/// A class of equivalent nodes with its data.
#[derive(Debug)]
pub struct EClass<Op, D> {
    pub id: usize,
    pub nodes: Vec<AstNode<Op>>,
    pub data: D,
}

/// Classes of equivalent nodes. Several identifiers may name one class; the
/// identifier that the class itself holds is one of them.
#[derive(Debug)]
pub struct EGraph<Op, D> {
    /// For each identifier, where its class stands.
    pub slots: Vec<usize>,
    pub classes: Vec<EClass<Op, D>>,
}

impl<Op, D> EGraph<Op, D> {
    /// Whether every identifier names a class, every class is named by its
    /// own identifier, and every argument is an identifier.
    pub open spec fn wf(&self) -> bool {
        &&& forall|i: int|
            0 <= i < self.slots@.len() ==> (#[trigger] self.slots@[i]) < self.classes@.len()
        &&& forall|k: int|
            0 <= k < self.classes@.len() ==> {
                &&& (#[trigger] self.classes@[k]).id < self.slots@.len()
                &&& self.slots@[self.classes@[k].id as int] == k
            }
        &&& forall|k: int, n: int|
            0 <= k < self.classes@.len() && 0 <= n < self.classes@[k].nodes@.len()
                ==> #[trigger] self.args_valid(self.classes@[k].nodes@[n]@)
    }

    /// Whether every argument of a node is an identifier.
    pub open spec fn args_valid(&self, node: NodeView<Op>) -> bool {
        forall|j: int| 0 <= j < node.args.len() ==> (#[trigger] node.args[j]) < self.slots@.len()
    }

    /// The class that an identifier names.
    pub open spec fn class(&self, id: usize) -> EClass<Op, D> {
        self.classes@[self.slots@[id as int] as int]
    }

    /// Where the class of an identifier stands.
    pub fn place(&self, id: usize) -> (r: usize)
        requires
            self.wf(),
            id < self.slots@.len(),
        ensures
            r == self.slots@[id as int],
            r < self.classes@.len(),
            self.classes@[r as int] == self.class(id),
    {
        self.slots[id]
    }

    /// The class that an identifier names.
    pub fn get(&self, id: usize) -> (r: &EClass<Op, D>)
        requires
            self.wf(),
            id < self.slots@.len(),
        ensures
            *r == self.class(id),
    {
        let k: usize = self.place(id);
        &self.classes[k]
    }
}

} // verus!
