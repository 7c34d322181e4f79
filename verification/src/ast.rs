use vstd::prelude::*;

use crate::typekind::FnKind;

verus! {

/// A simple syntax tree for operator expressions: a node carries an
/// operator kind and the subtrees of its operands.  It is the shape the
/// parsed source is read into before a graph is built from it.
#[derive(Debug)]
pub struct AbstractSyntaxTree {
    pub value: FnKind,
    pub children: Vec<AbstractSyntaxTree>,
}

impl AbstractSyntaxTree {
    /// A leaf carrying the given operator kind.
    pub fn new(value: FnKind) -> (t: AbstractSyntaxTree)
        ensures
            t.value == value,
            t.children@.len() == 0,
    {
        AbstractSyntaxTree { value, children: Vec::new() }
    }

    pub fn get_value(&self) -> (r: &FnKind)
        ensures
            r == self.value,
    {
        &self.value
    }

    pub fn set_value(&mut self, value: FnKind)
        ensures
            final(self).value == value,
            final(self).children == old(self).children,
    {
        self.value = value;
    }

    pub fn add_child(&mut self, child: AbstractSyntaxTree)
        ensures
            final(self).value == old(self).value,
            final(self).children@ == old(self).children@.push(child),
    {
        self.children.push(child);
    }

    pub fn get_children(&self) -> (r: &Vec<AbstractSyntaxTree>)
        ensures
            r == self.children,
    {
        &self.children
    }

    pub fn set_children(&mut self, children: Vec<AbstractSyntaxTree>)
        ensures
            final(self).value == old(self).value,
            final(self).children == children,
    {
        self.children = children;
    }
}

} // verus!
