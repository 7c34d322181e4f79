use vstd::prelude::*;

use crate::typekind::tyv;
use crate::typekind::TyV;
use crate::typekind::TypeKind;

verus! {

/// Position of a node in the graph's registry, assigned at insertion and
/// stable for the graph's lifetime.
pub type NodeIdx = usize;

/// Relies on `uuid::Uuid::new_v4` and `uuid::Uuid::as_u128`: a freshly
/// generated random version-4 identifier, carried as its 128-bit value.
/// Nothing is assumed of the value: identifiers are opaque and only
/// treated as unique by convention.
#[verifier::external_body]
pub(crate) fn fresh_identity() -> u128 {
    uuid::Uuid::new_v4().as_u128()
}

/// A graph vertex: an identity, a current type, neighbour references, and
/// argument / return references into the owning graph.  The node itself
/// enforces no invariant; the graph that owns it does.
#[derive(Debug)]
pub struct Node {
    pub(crate) name: u128,
    pub(crate) edges: Vec<NodeIdx>,
    pub(crate) self_t: TypeKind,
    pub(crate) arguments: Vec<NodeIdx>,
    pub(crate) return_t: Vec<NodeIdx>,
}

/// The mathematical value of a `Node`.
pub struct NodeV {
    pub name: u128,
    pub edges: Seq<NodeIdx>,
    pub self_t: TyV,
    pub arguments: Seq<NodeIdx>,
    pub return_t: Seq<NodeIdx>,
}

impl View for Node {
    type V = NodeV;

    closed spec fn view(&self) -> NodeV {
        NodeV {
            name: self.name,
            edges: self.edges@,
            self_t: tyv(self.self_t),
            arguments: self.arguments@,
            return_t: self.return_t@,
        }
    }
}

impl Node {
    /// A fresh node of the given type, with a newly drawn identity and no
    /// references.
    pub fn new(self_t: TypeKind) -> (n: Node)
        ensures
            n@.self_t == tyv(self_t),
            n@.edges.len() == 0,
            n@.arguments.len() == 0,
            n@.return_t.len() == 0,
    {
        Node {
            name: fresh_identity(),
            edges: Vec::new(),
            self_t,
            arguments: Vec::new(),
            return_t: Vec::new(),
        }
    }

    pub fn name(&self) -> (r: u128)
        ensures
            r == self@.name,
    {
        self.name
    }

    pub fn edges(&self) -> (r: &Vec<NodeIdx>)
        ensures
            r@ == self@.edges,
    {
        &self.edges
    }

    /// The node's current type, read out as a fresh descriptor.
    pub fn self_t(&self) -> (r: TypeKind)
        ensures
            tyv(r) == self@.self_t,
    {
        self.self_t.clone()
    }

    pub fn arguments(&self) -> (r: &Vec<NodeIdx>)
        ensures
            r@ == self@.arguments,
    {
        &self.arguments
    }

    pub fn return_t(&self) -> (r: &Vec<NodeIdx>)
        ensures
            r@ == self@.return_t,
    {
        &self.return_t
    }

    /// Appends one direction of an adjacency; the caller is responsible
    /// for the reverse direction.
    pub fn add_edge(&mut self, idx: NodeIdx)
        ensures
            final(self)@ == (NodeV { edges: old(self)@.edges.push(idx), ..old(self)@ }),
    {
        self.edges.push(idx);
    }

    /// Unconditionally overwrites the node's type; the caller is
    /// responsible for respecting narrowing monotonicity.
    pub fn set_self_t(&mut self, t: TypeKind)
        ensures
            final(self)@ == (NodeV { self_t: tyv(t), ..old(self)@ }),
    {
        self.self_t = t;
    }

    pub fn set_arguments(&mut self, args: Vec<NodeIdx>)
        ensures
            final(self)@ == (NodeV { arguments: args@, ..old(self)@ }),
    {
        self.arguments = args;
    }

    pub fn add_argument(&mut self, arg: NodeIdx)
        ensures
            final(self)@ == (NodeV { arguments: old(self)@.arguments.push(arg), ..old(self)@ }),
    {
        self.arguments.push(arg);
    }

    pub fn add_return_t(&mut self, ret: NodeIdx)
        ensures
            final(self)@ == (NodeV { return_t: old(self)@.return_t.push(ret), ..old(self)@ }),
    {
        self.return_t.push(ret);
    }

    /// Deletes one occurrence of a neighbour reference — the first, if
    /// the reference is listed at all; symmetry must be restored by the
    /// caller.
    pub fn remove_edge(&mut self, idx: NodeIdx)
        ensures
            ({
                let es = old(self)@.edges;
                match first_occurrence(es, idx, 0) {
                    Some(j) => final(self)@ == (NodeV { edges: es.remove(j), ..old(self)@ }),
                    None => final(self)@ == old(self)@,
                }
            }),
    {
        let ghost old_edges = self.edges@;
        let mut i: usize = 0;
        while i < self.edges.len()
            invariant
                i <= self.edges@.len(),
                self@ == old(self)@,
                old_edges == self.edges@,
                first_occurrence(old_edges, idx, 0) == first_occurrence(old_edges, idx, i as int),
            decreases self.edges.len() - i,
        {
            if self.edges[i] == idx {
                self.edges.remove(i);
                return ;
            }
            i = i + 1;
        }
    }
}

/// The least position at or after `from` where `x` stands in the list.
pub open spec fn first_occurrence(s: Seq<NodeIdx>, x: NodeIdx, from: int) -> Option<int>
    decreases s.len() - from,
{
    if from < 0 || from >= s.len() {
        None
    } else if s[from] == x {
        Some(from)
    } else {
        first_occurrence(s, x, from + 1)
    }
}

} // verus!
