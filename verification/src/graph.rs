use vstd::prelude::*;
use vstd::set_lib::lemma_int_range;
use vstd::set_lib::lemma_len_subset;
use vstd::set_lib::set_int_range;

use crate::errors::TypeErrors;
use crate::node::Node;
use crate::node::NodeIdx;
use crate::node::NodeV;
use crate::type_system::sig_compat;
use crate::type_system::SigV;
use crate::type_system::Signature;
use crate::typekind::compat;
use crate::typekind::is_under;
use crate::typekind::le_spec;
use crate::typekind::tyv;
use crate::typekind::FnKind;
use crate::typekind::TyV;
use crate::typekind::TypeKind;

verus! {

/// The inference graph: a growable arena of nodes, positionally indexed;
/// a fixed list of canonical base types, one per concrete kind, each
/// backed by the singleton node at the same position; and a store of
/// recorded signatures keyed by node position.
#[derive(Debug)]
pub struct Graph {
    nodes: Vec<Node>,
    base: Vec<TypeKind>,
    store: Vec<(NodeIdx, Signature)>,
}

/// The mathematical value of a `Graph`.
pub struct GraphV {
    pub nodes: Seq<NodeV>,
    pub base: Seq<TyV>,
    pub store: Map<int, SigV>,
}

/// The signature store as a map: a later record for the same position
/// overrides an earlier one.
pub open spec fn store_map(s: Seq<(NodeIdx, Signature)>) -> Map<int, SigV>
    decreases s,
{
    if s.len() == 0 {
        Map::empty()
    } else {
        store_map(s.drop_last()).insert(s.last().0 as int, s.last().1@)
    }
}

impl View for Graph {
    type V = GraphV;

    closed spec fn view(&self) -> GraphV {
        GraphV {
            nodes: self.nodes@.map_values(|n: Node| n@),
            base: self.base@.map_values(|t: TypeKind| tyv(t)),
            store: store_map(self.store@),
        }
    }
}

/// How many times `x` occurs in an adjacency list.
pub open spec fn occ(s: Seq<NodeIdx>, x: NodeIdx) -> nat {
    s.filter(|e: NodeIdx| e == x).len()
}

/// The canonical base types, in registry order.
pub open spec fn canonical_base() -> Seq<TyV> {
    seq![
        TyV::Number,
        TyV::Str,
        TyV::Boolean,
        TyV::Void,
        TyV::Object(Seq::empty()),
        TyV::InBuilt(FnKind::Stub),
        TyV::Function,
    ]
}

/// Position of the base node that anchors a concrete kind; negative for
/// the under-determined kinds, which are not anchored.
pub open spec fn base_index_of(t: TyV) -> int {
    match t {
        TyV::Number => 0,
        TyV::Str => 1,
        TyV::Boolean => 2,
        TyV::Void => 3,
        TyV::Object(_) => 4,
        TyV::InBuilt(_) => 5,
        TyV::Function => 6,
        _ => -1,
    }
}

impl GraphV {
    /// The current types of all nodes, by position.
    pub open spec fn types(self) -> Seq<TyV> {
        self.nodes.map_values(|n: NodeV| n.self_t)
    }

    /// The graph with the node at `i` replaced.
    pub open spec fn with_node(self, i: int, n: NodeV) -> GraphV {
        GraphV { nodes: self.nodes.update(i, n), ..self }
    }

    /// Every neighbour reference lands inside the registry.
    pub open spec fn edges_in_range(self) -> bool {
        forall|i: int, j: int|
            0 <= i < self.nodes.len() && 0 <= j < self.nodes[i].edges.len() ==> (
            #[trigger] self.nodes[i].edges[j]) < self.nodes.len()
    }

    /// Adjacency is symmetric, occurrence for occurrence.
    pub open spec fn edges_symmetric(self) -> bool {
        forall|a: NodeIdx, b: NodeIdx|
            a < self.nodes.len() && b < self.nodes.len() ==> #[trigger] occ(
                self.nodes[a as int].edges,
                b,
            ) == occ(self.nodes[b as int].edges, a)
    }

    /// The base list holds the seven canonical kinds and the first seven
    /// nodes are their singleton base nodes.
    pub open spec fn base_ok(self) -> bool {
        &&& self.base == canonical_base()
        &&& self.nodes.len() >= 7
        &&& forall|k: int| 0 <= k < 7 ==> (#[trigger] self.nodes[k].self_t) == self.base[k]
    }

    /// The graph's maintained invariant.
    pub open spec fn wf(self) -> bool {
        self.edges_in_range() && self.edges_symmetric() && self.base_ok()
    }
}

proof fn lemma_occ_empty(x: NodeIdx)
    ensures
        occ(Seq::empty(), x) == 0,
{
    reveal(Seq::filter);
}

proof fn lemma_occ_push(s: Seq<NodeIdx>, x: NodeIdx, y: NodeIdx)
    ensures
        occ(s.push(y), x) == if x == y {
            occ(s, x) + 1
        } else {
            occ(s, x)
        },
{
    reveal(Seq::filter);
    assert(s.push(y).drop_last() =~= s);
    assert(s.push(y).last() == y);
}

impl Graph {
    /// A fresh graph holding exactly the seven singleton base nodes, one
    /// per concrete kind, and an empty signature store.
    pub fn new() -> (g: Graph)
        ensures
            g@.wf(),
            g@.nodes.len() == 7,
            g@.base == canonical_base(),
            g@.store == Map::<int, SigV>::empty(),
            forall|k: int| 0 <= k < 7 ==> (#[trigger] g@.nodes[k].self_t) == canonical_base()[k],
            forall|k: int| 0 <= k < 7 ==> (#[trigger] g@.nodes[k].edges).len() == 0,
            forall|k: int| 0 <= k < 7 ==> (#[trigger] g@.nodes[k].arguments).len() == 0,
            forall|k: int| 0 <= k < 7 ==> (#[trigger] g@.nodes[k].return_t).len() == 0,
    {
        let mut base: Vec<TypeKind> = Vec::new();
        base.push(TypeKind::Number);
        base.push(TypeKind::String);
        base.push(TypeKind::Boolean);
        base.push(TypeKind::Void);
        base.push(TypeKind::Object(Vec::new()));
        base.push(TypeKind::InBuilt(FnKind::Stub));
        base.push(TypeKind::Function);
        let mut nodes: Vec<Node> = Vec::new();
        let mut i: usize = 0;
        while i < base.len()
            invariant
                i <= base.len(),
                base@.len() == 7,
                nodes@.len() == i,
                forall|k: int|
                    0 <= k < i ==> (#[trigger] nodes@[k]@).self_t == tyv(base@[k])
                        && nodes@[k]@.edges.len() == 0 && nodes@[k]@.arguments.len() == 0
                        && nodes@[k]@.return_t.len() == 0,
            decreases base.len() - i,
        {
            let n = Node::new(base[i].clone());
            nodes.push(n);
            i = i + 1;
        }
        let g = Graph { nodes, base, store: Vec::new() };
        proof {
            assert(g@.base[4] == TyV::Object(Seq::empty()));
            assert(g@.base =~= canonical_base());
            assert forall|a: NodeIdx, b: NodeIdx|
                a < g@.nodes.len() && b < g@.nodes.len() implies #[trigger] occ(
                g@.nodes[a as int].edges,
                b,
            ) == occ(g@.nodes[b as int].edges, a) by {
                assert(g@.nodes[a as int].edges =~= Seq::<NodeIdx>::empty());
                assert(g@.nodes[b as int].edges =~= Seq::<NodeIdx>::empty());
                lemma_occ_empty(b);
                lemma_occ_empty(a);
            }
            assert(g@.store =~= Map::<int, SigV>::empty());
        }
        g
    }

    /// How many nodes the graph holds.
    pub fn len(&self) -> (r: usize)
        ensures
            r == self@.nodes.len(),
    {
        self.nodes.len()
    }

    /// The node at a position, if the position is in range.
    pub fn get_node(&self, idx: NodeIdx) -> (r: Option<&Node>)
        ensures
            match r {
                Some(n) => idx < self@.nodes.len() && n@ == self@.nodes[idx as int],
                None => idx >= self@.nodes.len(),
            },
    {
        if idx < self.nodes.len() {
            Some(&self.nodes[idx])
        } else {
            None
        }
    }

    /// The first node carrying the given identity, if any.
    pub fn get_node_from_uuid(&self, uuid: u128) -> (r: Option<&Node>)
        ensures
            match first_with_name(self@.nodes, uuid, 0) {
                Some(i) => r matches Some(n) && n@ == self@.nodes[i],
                None => r is None,
            },
    {
        let mut i: usize = 0;
        while i < self.nodes.len()
            invariant
                i <= self@.nodes.len(),
                first_with_name(self@.nodes, uuid, 0) == first_with_name(
                    self@.nodes,
                    uuid,
                    i as int,
                ),
            decreases self.nodes.len() - i,
        {
            if self.nodes[i].name() == uuid {
                return Some(&self.nodes[i]);
            }
            i = i + 1;
        }
        None
    }

    /// Records the authoritative signature for a node position; a later
    /// record for the same position overrides an earlier one.
    pub fn add_store_signature(&mut self, idx: NodeIdx, sig: Signature)
        ensures
            final(self)@ == (GraphV {
                store: old(self)@.store.insert(idx as int, sig@),
                ..old(self)@
            }),
    {
        self.store.push((idx, sig));
        proof {
            assert(self.store@.drop_last() =~= old(self).store@);
        }
    }

    /// The recorded signature for a node position, if one was recorded.
    pub fn get_store_signature(&self, idx: NodeIdx) -> (r: Option<&Signature>)
        ensures
            match r {
                Some(s) => self@.store.contains_key(idx as int) && s@ == self@.store[idx as int],
                None => !self@.store.contains_key(idx as int),
            },
    {
        proof {
            assert(self.store@.subrange(0, self.store@.len() as int) =~= self.store@);
        }
        let mut j = self.store.len();
        while j > 0
            invariant
                j <= self.store@.len(),
                store_map(self.store@).contains_key(idx as int) == store_map(
                    self.store@.subrange(0, j as int),
                ).contains_key(idx as int),
                store_map(self.store@).contains_key(idx as int) ==> store_map(self.store@)[
                    idx as int] == store_map(self.store@.subrange(0, j as int))[idx as int],
            decreases j,
        {
            j = j - 1;
            proof {
                let cur = self.store@.subrange(0, j + 1);
                assert(cur.last() == self.store@[j as int]);
                assert(cur.drop_last() =~= self.store@.subrange(0, j as int));
            }
            if self.store[j].0 == idx {
                return Some(&self.store[j].1);
            }
        }
        proof {
            assert(self.store@.subrange(0, 0).len() == 0);
        }
        None
    }
}

/// Whether a narrowing attempt rewrote the node's type.
#[derive(Debug)]
pub enum NarrowingStatus {
    Narrowed,
    Unchanged,
}

/// The outcome of folding a node's neighbours over a candidate type:
/// each neighbour whose type lies at or below the candidate replaces it;
/// the first neighbour whose type does not fails with the pair
/// (candidate, neighbour type).
pub open spec fn narrow_fold(types: Seq<TyV>, edges: Seq<NodeIdx>, curr: TyV) -> Result<
    TyV,
    (TyV, TyV),
>
    decreases edges.len(),
{
    if edges.len() == 0 {
        Ok(curr)
    } else {
        let et = types[edges.first() as int];
        if le_spec(et, curr) {
            narrow_fold(types, edges.drop_first(), et)
        } else {
            Err((curr, et))
        }
    }
}

/// What narrowing the node at `idx` decides: `Ok(None)` when the node is
/// already concrete, `Ok(Some(t))` when its type is rewritten to `t`, and
/// the conflicting pair otherwise.
pub open spec fn narrow_result(g: GraphV, idx: int) -> Result<Option<TyV>, (TyV, TyV)> {
    let n = g.nodes[idx];
    if !is_under(n.self_t) {
        Ok(None)
    } else {
        match narrow_fold(g.types(), n.edges, n.self_t) {
            Ok(t) => Ok(Some(t)),
            Err(p) => Err(p),
        }
    }
}

/// The graph as a successful narrowing of the node at `idx` leaves it.
pub open spec fn narrow_applied(g: GraphV, idx: int) -> GraphV {
    match narrow_result(g, idx) {
        Ok(Some(t)) => g.with_node(idx, NodeV { self_t: t, ..g.nodes[idx] }),
        _ => g,
    }
}

/// The live signature of the node at `idx`: the current type of each
/// argument node, in order, and of the first return-reference node.
pub open spec fn live_sig(g: GraphV, idx: int) -> SigV {
    SigV {
        arguments: Seq::new(
            g.nodes[idx].arguments.len(),
            |j: int| g.nodes[g.nodes[idx].arguments[j] as int].self_t,
        ),
        return_t: g.nodes[g.nodes[idx].return_t[0] as int].self_t,
    }
}

proof fn lemma_occ_zero(s: Seq<NodeIdx>, x: NodeIdx)
    requires
        forall|j: int| 0 <= j < s.len() ==> s[j] != x,
    ensures
        occ(s, x) == 0,
    decreases s.len(),
{
    reveal(Seq::filter);
    if s.len() > 0 {
        lemma_occ_zero(s.drop_last(), x);
    }
}

impl Graph {
    /// Replaces the node at `idx` by the same node with one more
    /// neighbour reference appended.
    fn node_push_edge(&mut self, idx: NodeIdx, e: NodeIdx)
        requires
            idx < old(self)@.nodes.len(),
        ensures
            final(self)@ == old(self)@.with_node(
                idx as int,
                NodeV {
                    edges: old(self)@.nodes[idx as int].edges.push(e),
                    ..old(self)@.nodes[idx as int]
                },
            ),
    {
        let mut n = self.nodes.remove(idx);
        n.add_edge(e);
        self.nodes.insert(idx, n);
        proof {
            assert(self.nodes@ =~= old(self).nodes@.update(idx as int, self.nodes@[idx as int]));
            assert(final(self)@.nodes =~= old(self)@.nodes.update(
                idx as int,
                NodeV {
                    edges: old(self)@.nodes[idx as int].edges.push(e),
                    ..old(self)@.nodes[idx as int]
                },
            ));
        }
    }

    /// Overwrites the argument references of the node at `idx`.
    pub fn set_node_arguments(&mut self, idx: NodeIdx, args: Vec<NodeIdx>)
        requires
            idx < old(self)@.nodes.len(),
        ensures
            final(self)@ == old(self)@.with_node(
                idx as int,
                NodeV { arguments: args@, ..old(self)@.nodes[idx as int] },
            ),
            old(self)@.wf() ==> final(self)@.wf(),
    {
        let ghost args_v = args@;
        let mut n = self.nodes.remove(idx);
        n.set_arguments(args);
        self.nodes.insert(idx, n);
        proof {
            assert(final(self)@.nodes =~= old(self)@.nodes.update(
                idx as int,
                NodeV { arguments: args_v, ..old(self)@.nodes[idx as int] },
            ));
            if old(self)@.wf() {
                lemma_wf_same_edges(old(self)@, final(self)@);
            }
        }
    }

    /// Appends one argument reference to the node at `idx`.
    pub fn add_node_argument(&mut self, idx: NodeIdx, arg: NodeIdx)
        requires
            idx < old(self)@.nodes.len(),
        ensures
            final(self)@ == old(self)@.with_node(
                idx as int,
                NodeV {
                    arguments: old(self)@.nodes[idx as int].arguments.push(arg),
                    ..old(self)@.nodes[idx as int]
                },
            ),
            old(self)@.wf() ==> final(self)@.wf(),
    {
        let mut n = self.nodes.remove(idx);
        n.add_argument(arg);
        self.nodes.insert(idx, n);
        proof {
            assert(final(self)@.nodes =~= old(self)@.nodes.update(
                idx as int,
                NodeV {
                    arguments: old(self)@.nodes[idx as int].arguments.push(arg),
                    ..old(self)@.nodes[idx as int]
                },
            ));
            if old(self)@.wf() {
                lemma_wf_same_edges(old(self)@, final(self)@);
            }
        }
    }

    /// Appends one return-type reference to the node at `idx`.
    pub fn add_node_return(&mut self, idx: NodeIdx, ret: NodeIdx)
        requires
            idx < old(self)@.nodes.len(),
        ensures
            final(self)@ == old(self)@.with_node(
                idx as int,
                NodeV {
                    return_t: old(self)@.nodes[idx as int].return_t.push(ret),
                    ..old(self)@.nodes[idx as int]
                },
            ),
            old(self)@.wf() ==> final(self)@.wf(),
    {
        let mut n = self.nodes.remove(idx);
        n.add_return_t(ret);
        self.nodes.insert(idx, n);
        proof {
            assert(final(self)@.nodes =~= old(self)@.nodes.update(
                idx as int,
                NodeV {
                    return_t: old(self)@.nodes[idx as int].return_t.push(ret),
                    ..old(self)@.nodes[idx as int]
                },
            ));
            if old(self)@.wf() {
                lemma_wf_same_edges(old(self)@, final(self)@);
            }
        }
    }

    /// The freshly computed signature of the node at `idx`, read live from
    /// its argument and return references.
    pub fn signature(&self, idx: NodeIdx) -> (r: Option<Signature>)
        requires
            idx < self@.nodes.len(),
            forall|j: int|
                0 <= j < self@.nodes[idx as int].arguments.len() ==> (#[trigger] self@.nodes[
                    idx as int].arguments[j]) < self@.nodes.len(),
            self@.nodes[idx as int].return_t.len() > 0,
            self@.nodes[idx as int].return_t[0] < self@.nodes.len(),
        ensures
            r matches Some(s) && s@ == live_sig(self@, idx as int),
    {
        let n_args = self.nodes[idx].arguments().len();
        let mut arguments: Vec<TypeKind> = Vec::new();
        let mut j: usize = 0;
        while j < n_args
            invariant
                j <= n_args,
                idx < self@.nodes.len(),
                self@.nodes[idx as int] == self.nodes@[idx as int]@,
                n_args == self@.nodes[idx as int].arguments.len(),
                forall|x: int|
                    0 <= x < n_args ==> (#[trigger] self@.nodes[idx as int].arguments[x])
                        < self@.nodes.len(),
                arguments@.len() == j,
                forall|x: int|
                    0 <= x < j ==> tyv(#[trigger] arguments@[x]) == self@.nodes[self@.nodes[
                        idx as int].arguments[x] as int].self_t,
            decreases n_args - j,
        {
            let aj = self.nodes[idx].arguments()[j];
            arguments.push(self.nodes[aj].self_t());
            j = j + 1;
        }
        let ret_idx = self.nodes[idx].return_t()[0];
        let return_t = self.nodes[ret_idx].self_t();
        let s = Signature { arguments, return_t };
        proof {
            assert(s@.arguments =~= live_sig(self@, idx as int).arguments);
        }
        Some(s)
    }
}

/// Two graph values with the same length, the same adjacency everywhere
/// and the same types everywhere are well-formed together.
proof fn lemma_wf_same_edges(g1: GraphV, g2: GraphV)
    requires
        g1.wf(),
        g2.nodes.len() == g1.nodes.len(),
        g2.base == g1.base,
        forall|i: int| 0 <= i < g1.nodes.len() ==> (#[trigger] g2.nodes[i]).edges == g1.nodes[i].edges,
        forall|i: int|
            0 <= i < g1.nodes.len() ==> (#[trigger] g2.nodes[i]).self_t == g1.nodes[i].self_t,
    ensures
        g2.wf(),
{
    assert forall|a: NodeIdx, b: NodeIdx|
        a < g2.nodes.len() && b < g2.nodes.len() implies #[trigger] occ(g2.nodes[a as int].edges, b)
        == occ(g2.nodes[b as int].edges, a) by {
        assert(g2.nodes[a as int].edges == g1.nodes[a as int].edges);
        assert(g2.nodes[b as int].edges == g1.nodes[b as int].edges);
    }
}

/// The graph with the bidirectional edge `from`–`to` installed: `to` is
/// appended to `from`'s adjacency and then `from` to `to`'s, so a
/// self-loop appends twice.
pub open spec fn graph_after_edge(g: GraphV, from: int, to: int) -> GraphV {
    let g1 = g.with_node(
        from,
        NodeV { edges: g.nodes[from].edges.push(to as NodeIdx), ..g.nodes[from] },
    );
    g1.with_node(to, NodeV { edges: g1.nodes[to].edges.push(from as NodeIdx), ..g1.nodes[to] })
}

proof fn lemma_wf_after_edge(g: GraphV, from: NodeIdx, to: NodeIdx)
    requires
        g.wf(),
        from < g.nodes.len(),
        to < g.nodes.len(),
    ensures
        graph_after_edge(g, from as int, to as int).wf(),
{
    let g2 = graph_after_edge(g, from as int, to as int);
    assert forall|i: int, j: int|
        0 <= i < g2.nodes.len() && 0 <= j < g2.nodes[i].edges.len() implies (#[trigger] g2.nodes[
        i].edges[j]) < g2.nodes.len() by {
        if i == from || i == to {
            let e_old = g.nodes[i].edges;
            if j < e_old.len() {
                assert(g.nodes[i].edges[j] < g.nodes.len());
            }
        }
    }
    assert forall|a: NodeIdx, b: NodeIdx|
        a < g2.nodes.len() && b < g2.nodes.len() implies #[trigger] occ(g2.nodes[a as int].edges, b)
        == occ(g2.nodes[b as int].edges, a) by {
        let ea = g.nodes[a as int].edges;
        let eb = g.nodes[b as int].edges;
        if from == to {
            let ef = g.nodes[from as int].edges;
            lemma_occ_push(ef, b, to);
            lemma_occ_push(ef.push(to), b, from);
            lemma_occ_push(ef, a, to);
            lemma_occ_push(ef.push(to), a, from);
        } else {
            let ef = g.nodes[from as int].edges;
            let et = g.nodes[to as int].edges;
            lemma_occ_push(ef, b, to);
            lemma_occ_push(et, b, from);
            lemma_occ_push(ef, a, to);
            lemma_occ_push(et, a, from);
        }
    }
}

/// Two graph values with the same adjacency and the same base-node types
/// are well-formed together.
proof fn lemma_wf_same_structure(g1: GraphV, g2: GraphV)
    requires
        g1.wf(),
        g2.nodes.len() == g1.nodes.len(),
        g2.base == g1.base,
        forall|i: int| 0 <= i < g1.nodes.len() ==> (#[trigger] g2.nodes[i]).edges == g1.nodes[i].edges,
        forall|k: int| 0 <= k < 7 ==> (#[trigger] g2.nodes[k]).self_t == g1.nodes[k].self_t,
    ensures
        g2.wf(),
{
    assert forall|a: NodeIdx, b: NodeIdx|
        a < g2.nodes.len() && b < g2.nodes.len() implies #[trigger] occ(g2.nodes[a as int].edges, b)
        == occ(g2.nodes[b as int].edges, a) by {
        assert(g2.nodes[a as int].edges == g1.nodes[a as int].edges);
        assert(g2.nodes[b as int].edges == g1.nodes[b as int].edges);
    }
}

impl Graph {
    /// Tightens the node at `node_idx` using the types of its neighbours:
    /// a node that is already concrete is left unchanged; otherwise each
    /// neighbour's type must lie at or below the best candidate seen so
    /// far and replaces it, and the first neighbour breaking that order
    /// fails the attempt with the conflicting pair, leaving the graph
    /// untouched.  A concrete node's type is never rewritten, and no
    /// call changes any other node.
    pub fn narrow(&mut self, node_idx: NodeIdx) -> (r: Result<NarrowingStatus, TypeErrors>)
        requires
            old(self)@.wf(),
            node_idx < old(self)@.nodes.len(),
        ensures
            final(self)@.wf(),
            final(self)@.nodes.len() == old(self)@.nodes.len(),
            final(self)@.base == old(self)@.base,
            final(self)@.store == old(self)@.store,
            forall|i: int|
                0 <= i < old(self)@.nodes.len() && !is_under(old(self)@.nodes[i].self_t) ==> (
                #[trigger] final(self)@.nodes[i]).self_t == old(self)@.nodes[i].self_t,
            forall|i: int|
                0 <= i < old(self)@.nodes.len() ==> (#[trigger] final(self)@.nodes[i]) == (NodeV {
                    self_t: final(self)@.nodes[i].self_t,
                    ..old(self)@.nodes[i]
                }),
            match narrow_result(old(self)@, node_idx as int) {
                Ok(None) => (r matches Ok(NarrowingStatus::Unchanged)) && final(self)@ == old(
                    self,
                )@,
                Ok(Some(t)) => (r matches Ok(NarrowingStatus::Narrowed)) && final(self)@
                    == narrow_applied(old(self)@, node_idx as int),
                Err((c, e)) => (r matches Err(TypeErrors::ConflictingInferredTypes(x, y))
                    && tyv(x) == c && tyv(y) == e) && final(self)@ == old(self)@,
            },
    {
        let t0 = self.nodes[node_idx].self_t();
        if !(matches!(t0, TypeKind::Unknown | TypeKind::Any)) {
            return Ok(NarrowingStatus::Unchanged);
        }
        let mut curr_t = t0;
        let ghost g0 = self@;
        let ghost e_seq = self@.nodes[node_idx as int].edges;
        let ghost start = self@.nodes[node_idx as int].self_t;
        let n_edges = self.nodes[node_idx].edges().len();
        proof {
            assert(e_seq.skip(0) =~= e_seq);
        }
        let mut i: usize = 0;
        while i < n_edges
            invariant
                self@ == g0,
                g0.wf(),
                node_idx < g0.nodes.len(),
                i <= n_edges,
                e_seq == g0.nodes[node_idx as int].edges,
                n_edges == e_seq.len(),
                start == g0.nodes[node_idx as int].self_t,
                is_under(start),
                narrow_fold(g0.types(), e_seq, start) == narrow_fold(
                    g0.types(),
                    e_seq.skip(i as int),
                    tyv(curr_t),
                ),
            decreases n_edges - i,
        {
            let e = self.nodes[node_idx].edges()[i];
            proof {
                assert(g0.nodes[node_idx as int].edges[i as int] < g0.nodes.len());
                assert(e_seq.skip(i as int).first() == e_seq[i as int]);
                assert(e_seq.skip(i as int).drop_first() =~= e_seq.skip(i + 1));
                assert(g0.types()[e as int] == g0.nodes[e as int].self_t);
            }
            let edge_t = self.nodes[e].self_t();
            let le = match edge_t.compare(&curr_t) {
                Some(core::cmp::Ordering::Less) | Some(core::cmp::Ordering::Equal) => true,
                _ => false,
            };
            if le {
                curr_t = edge_t;
            } else {
                proof {
                    assert(self.nodes@[node_idx as int]@ == g0.nodes[node_idx as int]);
                    assert(e == e_seq[i as int]);
                    assert(self.nodes@[e as int]@ == g0.nodes[e as int]);
                    assert(tyv(edge_t) == g0.types()[e_seq.skip(i as int).first() as int]);
                    assert(!le_spec(tyv(edge_t), tyv(curr_t)));
                    assert(narrow_fold(g0.types(), e_seq.skip(i as int), tyv(curr_t)) == Err::<
                        TyV,
                        (TyV, TyV),
                    >((tyv(curr_t), tyv(edge_t))));
                    assert(is_under(start));
                    assert(narrow_result(g0, node_idx as int) == Err::<Option<TyV>, (TyV, TyV)>(
                        (tyv(curr_t), tyv(edge_t)),
                    ));
                }
                return Err(TypeErrors::ConflictingInferredTypes(curr_t, edge_t));
            }
            i = i + 1;
        }
        proof {
            assert(e_seq.skip(n_edges as int) =~= Seq::<NodeIdx>::empty());
        }
        let ghost new_t = tyv(curr_t);
        let mut n = self.nodes.remove(node_idx);
        n.set_self_t(curr_t);
        self.nodes.insert(node_idx, n);
        proof {
            assert(self@.nodes =~= g0.nodes.update(
                node_idx as int,
                NodeV { self_t: new_t, ..g0.nodes[node_idx as int] },
            ));
            assert(self@ == narrow_applied(g0, node_idx as int));
            assert forall|k: int| 0 <= k < 7 implies (#[trigger] self@.nodes[k]).self_t
                == g0.nodes[k].self_t by {
                if k == node_idx {
                    assert(!is_under(canonical_base()[k]));
                }
            }
            lemma_wf_same_structure(g0, self@);
        }
        Ok(NarrowingStatus::Narrowed)
    }

    /// Inserts a node at the next free position and returns that
    /// position.  A node whose type is still under-determined is inserted
    /// as-is; a concrete-typed node is first anchored to the base node of
    /// its kind by a bidirectional edge, and the narrowing attempt that
    /// follows leaves it unchanged, since it is already concrete.
    pub fn add_node(&mut self, node: Node) -> (r: NodeIdx)
        requires
            old(self)@.wf(),
            node@.edges.len() == 0,
    ensures
            final(self)@.wf(),
            final(self)@.base == old(self)@.base,
            final(self)@.store == old(self)@.store,
            r == old(self)@.nodes.len(),
            final(self)@.nodes.len() == old(self)@.nodes.len() + 1,
            ({
                let t = node@.self_t;
                if is_under(t) {
                    final(self)@.nodes == old(self)@.nodes.push(node@)
                } else {
                    let b = base_index_of(t);
                    final(self)@.nodes == old(self)@.nodes.update(
                        b,
                        NodeV { edges: old(self)@.nodes[b].edges.push(r), ..old(self)@.nodes[b] },
                    ).push((NodeV { edges: seq![b as NodeIdx], ..node@ }))
                }
            }),
    {
        let node_idx = self.nodes.len();
        let t0 = node.self_t();
        let ghost g0 = self@;
        if matches!(t0, TypeKind::Unknown | TypeKind::Any) {
            self.nodes.push(node);
            proof {
                assert(self@.nodes =~= g0.nodes.push(node@));
                lemma_wf_after_push(g0, node@, self@);
            }
            return node_idx;
        }
        let base_idx: usize = match &t0 {
            TypeKind::Number => 0,
            TypeKind::String => 1,
            TypeKind::Boolean => 2,
            TypeKind::Void => 3,
            TypeKind::Object(_) => 4,
            TypeKind::InBuilt(_) => 5,
            TypeKind::Function => 6,
            TypeKind::Unknown | TypeKind::Any => {
                proof {
                    assert(false);
                }
                0
            },
        };
        proof {
            assert(base_idx == base_index_of(node@.self_t));
        }
        self.node_push_edge(base_idx, node_idx);
        let mut node = node;
        node.add_edge(base_idx);
        let ghost node_v = node@;
        self.nodes.push(node);
        proof {
            assert(node_v.edges =~= seq![base_idx as NodeIdx]);
            assert(self@.nodes =~= g0.nodes.update(
                base_idx as int,
                NodeV {
                    edges: g0.nodes[base_idx as int].edges.push(node_idx),
                    ..g0.nodes[base_idx as int]
                },
            ).push(node_v));
            lemma_wf_after_anchor(g0, node_v, base_idx, node_idx, self@);
        }
        let nr = self.narrow(node_idx);
        proof {
            assert(!is_under(node_v.self_t));
            assert(nr matches Ok(NarrowingStatus::Unchanged));
        }
        node_idx
    }

    /// Installs the bidirectional edge `from`–`to` and then attempts to
    /// narrow `from` and `to`, in that order.  The adjacency is installed
    /// and stays installed whatever the narrowing attempts report: a
    /// narrowing conflict is returned to the caller, but nothing is
    /// rolled back.
    pub fn add_edge(&mut self, from: NodeIdx, to: NodeIdx) -> (r: Result<(), TypeErrors>)
        requires
            old(self)@.wf(),
            from < old(self)@.nodes.len(),
            to < old(self)@.nodes.len(),
        ensures
            final(self)@.wf(),
            final(self)@.nodes.len() == old(self)@.nodes.len(),
            final(self)@.base == old(self)@.base,
            final(self)@.store == old(self)@.store,
            ({
                let g1 = graph_after_edge(old(self)@, from as int, to as int);
                match narrow_result(g1, from as int) {
                    Err((c, e)) => (r matches Err(TypeErrors::ConflictingInferredTypes(x, y))
                        && tyv(x) == c && tyv(y) == e) && final(self)@ == g1,
                    _ => {
                        let g2 = narrow_applied(g1, from as int);
                        match narrow_result(g2, to as int) {
                            Err((c, e)) => (r matches Err(TypeErrors::ConflictingInferredTypes(
                                x,
                                y,
                            )) && tyv(x) == c && tyv(y) == e) && final(self)@ == g2,
                            _ => r is Ok && final(self)@ == narrow_applied(g2, to as int),
                        }
                    },
                }
            }),
            // the adjacency is symmetric whatever the narrowing outcome
            from != to ==> final(self)@.nodes[from as int].edges == old(self)@.nodes[
                from as int].edges.push(to),
            from != to ==> final(self)@.nodes[to as int].edges == old(self)@.nodes[
                to as int].edges.push(from),
            from == to ==> final(self)@.nodes[from as int].edges == old(self)@.nodes[
                from as int].edges.push(to).push(from),
            forall|i: int|
                0 <= i < old(self)@.nodes.len() && i != from && i != to ==> (#[trigger] final(self)@.nodes[i]).edges == old(self)@.nodes[i].edges,
    {
        self.node_push_edge(from, to);
        self.node_push_edge(to, from);
        proof {
            assert(self@ == graph_after_edge(old(self)@, from as int, to as int));
            lemma_wf_after_edge(old(self)@, from, to);
        }
        match self.narrow(from) {
            Err(e) => {
                return Err(e);
            },
            Ok(_) => {},
        }
        match self.narrow(to) {
            Err(e) => {
                return Err(e);
            },
            Ok(_) => {},
        }
        Ok(())
    }
}

/// A node with no edges appended to a well-formed graph keeps it
/// well-formed.
proof fn lemma_wf_after_push(g: GraphV, n: NodeV, g2: GraphV)
    requires
        g.wf(),
        n.edges.len() == 0,
        g2.nodes == g.nodes.push(n),
        g2.base == g.base,
    ensures
        g2.wf(),
{
    let m = g.nodes.len();
    assert forall|a: NodeIdx, b: NodeIdx|
        a < g2.nodes.len() && b < g2.nodes.len() implies #[trigger] occ(g2.nodes[a as int].edges, b)
        == occ(g2.nodes[b as int].edges, a) by {
        if a as int == m || b as int == m {
            if a as int == m && b as int == m {
                lemma_occ_zero(g2.nodes[a as int].edges, b);
            } else if a as int == m {
                lemma_occ_zero(g2.nodes[a as int].edges, b);
                assert forall|j: int| 0 <= j < g.nodes[b as int].edges.len() implies g.nodes[
                    b as int].edges[j] != a by {
                    assert(g.nodes[b as int].edges[j] < g.nodes.len());
                }
                lemma_occ_zero(g2.nodes[b as int].edges, a);
            } else {
                lemma_occ_zero(g2.nodes[b as int].edges, a);
                assert forall|j: int| 0 <= j < g.nodes[a as int].edges.len() implies g.nodes[
                    a as int].edges[j] != b by {
                    assert(g.nodes[a as int].edges[j] < g.nodes.len());
                }
                lemma_occ_zero(g2.nodes[a as int].edges, b);
            }
        }
    }
}

/// A fresh node anchored to a base node by one mutual edge keeps a
/// well-formed graph well-formed.
proof fn lemma_wf_after_anchor(g: GraphV, n: NodeV, b: NodeIdx, m: NodeIdx, g2: GraphV)
    requires
        g.wf(),
        b < 7,
        m == g.nodes.len(),
        n.edges == seq![b],
        g2.nodes == g.nodes.update(
            b as int,
            NodeV { edges: g.nodes[b as int].edges.push(m), ..g.nodes[b as int] },
        ).push(n),
        g2.base == g.base,
    ensures
        g2.wf(),
{
    assert forall|i: int, j: int|
        0 <= i < g2.nodes.len() && 0 <= j < g2.nodes[i].edges.len() implies (#[trigger] g2.nodes[
        i].edges[j]) < g2.nodes.len() by {
        if i == b as int {
            let e_old = g.nodes[i].edges;
            if j < e_old.len() {
                assert(g.nodes[i].edges[j] < g.nodes.len());
            }
        } else if i < g.nodes.len() {
            assert(g.nodes[i].edges[j] < g.nodes.len());
        }
    }
    assert forall|x: NodeIdx, y: NodeIdx|
        x < g2.nodes.len() && y < g2.nodes.len() implies #[trigger] occ(g2.nodes[x as int].edges, y)
        == occ(g2.nodes[y as int].edges, x) by {
        let eb = g.nodes[b as int].edges;
        lemma_occ_push(eb, y, m);
        lemma_occ_push(eb, x, m);
        assert(seq![b] =~= Seq::<NodeIdx>::empty().push(b));
        lemma_occ_push(Seq::<NodeIdx>::empty(), y, b);
        lemma_occ_push(Seq::<NodeIdx>::empty(), x, b);
        lemma_occ_empty(x);
        lemma_occ_empty(y);
        if x == m && y == m {
        } else if x == m {
            if y != b {
                assert forall|j: int| 0 <= j < g.nodes[y as int].edges.len() implies g.nodes[
                    y as int].edges[j] != m by {
                    assert(g.nodes[y as int].edges[j] < g.nodes.len());
                }
                lemma_occ_zero(g.nodes[y as int].edges, m);
            } else {
                assert forall|j: int| 0 <= j < eb.len() implies eb[j] != m by {
                    assert(g.nodes[b as int].edges[j] < g.nodes.len());
                }
                lemma_occ_zero(eb, m);
            }
        } else if y == m {
            if x != b {
                assert forall|j: int| 0 <= j < g.nodes[x as int].edges.len() implies g.nodes[
                    x as int].edges[j] != m by {
                    assert(g.nodes[x as int].edges[j] < g.nodes.len());
                }
                lemma_occ_zero(g.nodes[x as int].edges, m);
            } else {
                assert forall|j: int| 0 <= j < eb.len() implies eb[j] != m by {
                    assert(g.nodes[b as int].edges[j] < g.nodes.len());
                }
                lemma_occ_zero(eb, m);
            }
        }
    }
}

/// The type of the first neighbour in adjacency order whose type is not
/// compatible with `t`, if any.
pub open spec fn first_bad_edge(types: Seq<TyV>, t: TyV, edges: Seq<NodeIdx>) -> Option<TyV>
    decreases edges.len(),
{
    if edges.len() == 0 {
        None
    } else {
        let et = types[edges.first() as int];
        if !compat(et, t) {
            Some(et)
        } else {
            first_bad_edge(types, t, edges.drop_first())
        }
    }
}

/// The type of the first argument node, after the first, whose type is
/// not compatible with the first argument's type.
pub open spec fn eq_args_bad(types: Seq<TyV>, first: TyV, rest: Seq<NodeIdx>) -> Option<TyV>
    decreases rest.len(),
{
    if rest.len() == 0 {
        None
    } else {
        let at = types[rest.first() as int];
        if !compat(first, at) {
            Some(at)
        } else {
            eq_args_bad(types, first, rest.drop_first())
        }
    }
}

/// The type of the first argument node whose type is not compatible with
/// `Number`.
pub open spec fn add_args_bad(types: Seq<TyV>, args: Seq<NodeIdx>) -> Option<TyV>
    decreases args.len(),
{
    if args.len() == 0 {
        None
    } else {
        let at = types[args.first() as int];
        if !compat(at, TyV::Number) {
            Some(at)
        } else {
            add_args_bad(types, args.drop_first())
        }
    }
}

/// What a consistency check decides.
pub enum CheckV {
    Good,
    BadSig(SigV, SigV),
    BadType(TyV, TyV),
    BadOp(FnKind),
}

/// What store-consistency decides for the node at `idx`: a recorded
/// signature must match the live one; with none recorded, the built-in
/// rule of the node's operator kind applies, and an operator kind with no
/// rule is reported rather than silently accepted.
pub open spec fn check_store_spec(g: GraphV, idx: int) -> CheckV {
    let n = g.nodes[idx];
    if g.store.contains_key(idx) {
        let stored = g.store[idx];
        let live = live_sig(g, idx);
        if sig_compat(stored, live) {
            CheckV::Good
        } else {
            CheckV::BadSig(stored, live)
        }
    } else {
        match n.self_t {
            TyV::InBuilt(k) => if k == FnKind::Stub {
                CheckV::Good
            } else if k == FnKind::Eq {
                let first = g.types()[n.arguments[0] as int];
                match eq_args_bad(g.types(), first, n.arguments.drop_first()) {
                    Some(at) => CheckV::BadType(first, at),
                    None => CheckV::Good,
                }
            } else if k == FnKind::Add {
                match add_args_bad(g.types(), n.arguments) {
                    Some(at) => CheckV::BadType(TyV::Number, at),
                    None => CheckV::Good,
                }
            } else {
                CheckV::BadOp(k)
            },
            _ => CheckV::Good,
        }
    }
}

/// What a store-consistency check of the node at `idx` reads: argument
/// and return references must land in the registry wherever the check
/// dereferences them, and an `Eq` operator node must have an argument.
pub open spec fn check_store_pre(g: GraphV, idx: int) -> bool {
    let n = g.nodes[idx];
    if g.store.contains_key(idx) {
        &&& n.return_t.len() > 0
        &&& n.return_t[0] < g.nodes.len()
        &&& forall|j: int|
            0 <= j < n.arguments.len() ==> (#[trigger] n.arguments[j]) < g.nodes.len()
    } else {
        match n.self_t {
            TyV::InBuilt(k) => if k == FnKind::Eq {
                &&& n.arguments.len() > 0
                &&& forall|j: int|
                    0 <= j < n.arguments.len() ==> (#[trigger] n.arguments[j]) < g.nodes.len()
            } else if k == FnKind::Add {
                forall|j: int|
                    0 <= j < n.arguments.len() ==> (#[trigger] n.arguments[j]) < g.nodes.len()
            } else {
                true
            },
            _ => true,
        }
    }
}

impl Graph {
    /// Edge-consistency: every neighbour of the node at `node_idx` must
    /// carry a type compatible with the node's own; the first neighbour
    /// that does not fails the check with the pair (node type, neighbour
    /// type).
    pub fn check_edges(&self, node_idx: NodeIdx) -> (r: Result<(), TypeErrors>)
        requires
            self@.wf(),
            node_idx < self@.nodes.len(),
        ensures
            match first_bad_edge(
                self@.types(),
                self@.nodes[node_idx as int].self_t,
                self@.nodes[node_idx as int].edges,
            ) {
                None => r is Ok,
                Some(et) => r matches Err(TypeErrors::ConflictingInferredTypes(x, y)) && tyv(x)
                    == self@.nodes[node_idx as int].self_t && tyv(y) == et,
            },
    {
        let curr_type = self.nodes[node_idx].self_t();
        let ghost g0 = self@;
        let ghost e_seq = self@.nodes[node_idx as int].edges;
        let ghost t = self@.nodes[node_idx as int].self_t;
        let n_edges = self.nodes[node_idx].edges().len();
        proof {
            assert(e_seq.skip(0) =~= e_seq);
        }
        let mut i: usize = 0;
        while i < n_edges
            invariant
                self@ == g0,
                g0.wf(),
                node_idx < g0.nodes.len(),
                i <= n_edges,
                e_seq == g0.nodes[node_idx as int].edges,
                n_edges == e_seq.len(),
                t == g0.nodes[node_idx as int].self_t,
                tyv(curr_type) == t,
                first_bad_edge(g0.types(), t, e_seq) == first_bad_edge(
                    g0.types(),
                    t,
                    e_seq.skip(i as int),
                ),
            decreases n_edges - i,
        {
            let e = self.nodes[node_idx].edges()[i];
            proof {
                assert(g0.nodes[node_idx as int].edges[i as int] < g0.nodes.len());
                assert(e_seq.skip(i as int).first() == e_seq[i as int]);
                assert(e_seq.skip(i as int).drop_first() =~= e_seq.skip(i + 1));
                assert(g0.types()[e as int] == g0.nodes[e as int].self_t);
            }
            let edge_t = self.nodes[e].self_t();
            if !edge_t.compatible(&curr_type) {
                return Err(TypeErrors::ConflictingInferredTypes(curr_type, edge_t));
            }
            i = i + 1;
        }
        proof {
            assert(e_seq.skip(n_edges as int) =~= Seq::<NodeIdx>::empty());
        }
        Ok(())
    }

    /// Store-consistency: a recorded signature must match the signature
    /// computed live; with none recorded, the built-in rule for the
    /// node's operator kind applies — `Stub` always passes, `Eq` wants
    /// all arguments mutually compatible, `Add` wants every argument
    /// compatible with `Number`, any other operator kind is reported as
    /// unsupported, and a node that is no operator passes.
    pub fn check_store(&self, node_idx: NodeIdx) -> (r: Result<(), TypeErrors>)
        requires
            self@.wf(),
            node_idx < self@.nodes.len(),
            check_store_pre(self@, node_idx as int),
        ensures
            match check_store_spec(self@, node_idx as int) {
                CheckV::Good => r is Ok,
                CheckV::BadSig(s1, s2) => r matches Err(TypeErrors::ConflictingSignatures(a, b))
                    && a@ == s1 && b@ == s2,
                CheckV::BadType(t1, t2) => r matches Err(TypeErrors::ConflictingInferredTypes(
                    a,
                    b,
                )) && tyv(a) == t1 && tyv(b) == t2,
                CheckV::BadOp(k) => r matches Err(TypeErrors::UnsupportedOperator(kk)) && kk == k,
            },
    {
        let ghost g0 = self@;
        let stored = self.get_store_signature(node_idx);
        match stored {
            Some(sig) => {
                let node_sig = match self.signature(node_idx) {
                    Some(s) => s,
                    None => {
                        proof {
                            assert(false);
                        }
                        return Ok(());
                    },
                };
                if *sig == node_sig {
                    Ok(())
                } else {
                    Err(TypeErrors::ConflictingSignatures(sig.clone(), node_sig))
                }
            },
            None => {
                let t = self.nodes[node_idx].self_t();
                match t {
                    TypeKind::InBuilt(ib) => match ib {
                        FnKind::Stub => Ok(()),
                        FnKind::Eq => self.check_eq_arguments(node_idx),
                        FnKind::Add => self.check_add_arguments(node_idx),
                        _ => Err(TypeErrors::UnsupportedOperator(ib)),
                    },
                    _ => Ok(()),
                }
            },
        }
    }

    /// The built-in rule for an `Eq` operator node: every argument node
    /// must carry a type compatible with the first argument's.
    fn check_eq_arguments(&self, node_idx: NodeIdx) -> (r: Result<(), TypeErrors>)
        requires
            self@.wf(),
            node_idx < self@.nodes.len(),
            self@.nodes[node_idx as int].arguments.len() > 0,
            forall|j: int|
                0 <= j < self@.nodes[node_idx as int].arguments.len() ==> (#[trigger] self@.nodes[
                    node_idx as int].arguments[j]) < self@.nodes.len(),
        ensures
            ({
                let args = self@.nodes[node_idx as int].arguments;
                let first = self@.types()[args[0] as int];
                match eq_args_bad(self@.types(), first, args.drop_first()) {
                    None => r is Ok,
                    Some(at) => r matches Err(TypeErrors::ConflictingInferredTypes(a, b)) && tyv(
                        a,
                    ) == first && tyv(b) == at,
                }
            }),
    {
        let ghost g0 = self@;
        let ghost args_seq = self@.nodes[node_idx as int].arguments;
        let ghost first_v = self@.types()[args_seq[0] as int];
        let a0 = self.nodes[node_idx].arguments()[0];
        let first_t = self.nodes[a0].self_t();
        let n_args = self.nodes[node_idx].arguments().len();
        proof {
            assert(g0.types()[a0 as int] == g0.nodes[a0 as int].self_t);
            assert(args_seq.drop_first() =~= args_seq.skip(1));
        }
        let mut i: usize = 1;
        while i < n_args
            invariant
                self@ == g0,
                g0.wf(),
                node_idx < g0.nodes.len(),
                1 <= i <= n_args,
                args_seq == g0.nodes[node_idx as int].arguments,
                n_args == args_seq.len(),
                forall|j: int|
                    0 <= j < args_seq.len() ==> (#[trigger] args_seq[j]) < g0.nodes.len(),
                tyv(first_t) == first_v,
                first_v == g0.types()[args_seq[0] as int],
                eq_args_bad(g0.types(), first_v, args_seq.drop_first()) == eq_args_bad(
                    g0.types(),
                    first_v,
                    args_seq.skip(i as int),
                ),
            decreases n_args - i,
        {
            let aj = self.nodes[node_idx].arguments()[i];
            proof {
                assert(args_seq.skip(i as int).first() == args_seq[i as int]);
                assert(args_seq.skip(i as int).drop_first() =~= args_seq.skip(i + 1));
                assert(g0.types()[aj as int] == g0.nodes[aj as int].self_t);
            }
            let at = self.nodes[aj].self_t();
            if !first_t.compatible(&at) {
                return Err(TypeErrors::ConflictingInferredTypes(first_t, at));
            }
            i = i + 1;
        }
        proof {
            assert(args_seq.skip(n_args as int) =~= Seq::<NodeIdx>::empty());
        }
        Ok(())
    }

    /// The built-in rule for an `Add` operator node: every argument node
    /// must carry a type compatible with `Number`.
    fn check_add_arguments(&self, node_idx: NodeIdx) -> (r: Result<(), TypeErrors>)
        requires
            self@.wf(),
            node_idx < self@.nodes.len(),
            forall|j: int|
                0 <= j < self@.nodes[node_idx as int].arguments.len() ==> (#[trigger] self@.nodes[
                    node_idx as int].arguments[j]) < self@.nodes.len(),
        ensures
            ({
                let args = self@.nodes[node_idx as int].arguments;
                match add_args_bad(self@.types(), args) {
                    None => r is Ok,
                    Some(at) => r matches Err(TypeErrors::ConflictingInferredTypes(a, b)) && tyv(
                        a,
                    ) == TyV::Number && tyv(b) == at,
                }
            }),
    {
        let ghost g0 = self@;
        let ghost args_seq = self@.nodes[node_idx as int].arguments;
        let n_args = self.nodes[node_idx].arguments().len();
        proof {
            assert(args_seq.skip(0) =~= args_seq);
        }
        let mut i: usize = 0;
        while i < n_args
            invariant
                self@ == g0,
                g0.wf(),
                node_idx < g0.nodes.len(),
                i <= n_args,
                args_seq == g0.nodes[node_idx as int].arguments,
                n_args == args_seq.len(),
                forall|j: int|
                    0 <= j < args_seq.len() ==> (#[trigger] args_seq[j]) < g0.nodes.len(),
                add_args_bad(g0.types(), args_seq) == add_args_bad(
                    g0.types(),
                    args_seq.skip(i as int),
                ),
            decreases n_args - i,
        {
            let aj = self.nodes[node_idx].arguments()[i];
            proof {
                assert(args_seq.skip(i as int).first() == args_seq[i as int]);
                assert(args_seq.skip(i as int).drop_first() =~= args_seq.skip(i + 1));
                assert(g0.types()[aj as int] == g0.nodes[aj as int].self_t);
            }
            let at = self.nodes[aj].self_t();
            let number = TypeKind::Number;
            if !at.compatible(&number) {
                return Err(TypeErrors::ConflictingInferredTypes(number, at));
            }
            i = i + 1;
        }
        proof {
            assert(args_seq.skip(n_args as int) =~= Seq::<NodeIdx>::empty());
        }
        Ok(())
    }
}

/// The set of node positions a walk has already visited, kept in a hash
/// set.  Verus does not accept a declaration of `hashbrown::HashSet`
/// itself (its allocator parameter's trait has no public path), so the
/// collection sits in a hidden field, described by `visited_set_of`.
#[verifier::external_body]
pub struct VisitedSet {
    inner: hashbrown::HashSet<NodeIdx>,
}

/// What a `VisitedSet` holds, as a set of positions.
pub uninterp spec fn visited_set_of(s: &VisitedSet) -> Set<int>;

impl VisitedSet {
    /// Relies on `hashbrown::HashSet::new`: a fresh, empty set.
    #[verifier::external_body]
    pub fn new() -> (s: VisitedSet)
        ensures
            visited_set_of(&s) == Set::<int>::empty(),
    {
        VisitedSet { inner: hashbrown::HashSet::new() }
    }

    /// Relies on `hashbrown::HashSet::contains`: whether the value was
    /// inserted before.
    #[verifier::external_body]
    pub fn contains(&self, x: NodeIdx) -> (r: bool)
        ensures
            r == visited_set_of(self).contains(x as int),
    {
        self.inner.contains(&x)
    }

    /// Relies on `hashbrown::HashSet::insert`: afterwards the set holds
    /// exactly the old values and the new one.
    #[verifier::external_body]
    pub fn insert(&mut self, x: NodeIdx)
        ensures
            visited_set_of(final(self)) == visited_set_of(old(self)).insert(x as int),
    {
        self.inner.insert(x);
    }
}

/// The walk state a depth-first traversal maintains: the pending stack
/// points into the registry and the visited set is a finite set of
/// registry positions.
pub open spec fn dfs_ok(g: GraphV, stack: Seq<NodeIdx>, visited: Set<int>) -> bool {
    &&& g.edges_in_range()
    &&& visited.finite()
    &&& visited.subset_of(set_int_range(0, g.nodes.len() as int))
    &&& forall|j: int| 0 <= j < stack.len() ==> (#[trigger] stack[j]) < g.nodes.len()
}

/// The order a depth-first walk visits positions in, driven by a pending
/// stack: an already-visited position is skipped, a fresh one is visited
/// and its neighbours, in adjacency order, are walked before the rest of
/// the stack.
pub open spec fn dfs_order(g: GraphV, stack: Seq<NodeIdx>, visited: Set<int>) -> Seq<NodeIdx>
    decreases g.nodes.len() - visited.len(), stack.len()
        when dfs_ok(g, stack, visited)
        via dfs_order_decreases
{
    if stack.len() == 0 {
        Seq::empty()
    } else {
        let i = stack.first();
        if visited.contains(i as int) {
            dfs_order(g, stack.drop_first(), visited)
        } else {
            seq![i] + dfs_order(
                g,
                g.nodes[i as int].edges + stack.drop_first(),
                visited.insert(i as int),
            )
        }
    }
}

#[via_fn]
proof fn dfs_order_decreases(g: GraphV, stack: Seq<NodeIdx>, visited: Set<int>) {
    lemma_dfs_step(g, stack, visited);
}

/// The facts every stack-driven walk needs to recurse: the fresh-visit
/// branch keeps the walk state well-formed and shrinks the count of
/// unvisited positions.
proof fn lemma_dfs_step(g: GraphV, stack: Seq<NodeIdx>, visited: Set<int>)
    requires
        dfs_ok(g, stack, visited),
    ensures
        visited.len() <= g.nodes.len(),
        stack.len() > 0 ==> dfs_ok(g, stack.drop_first(), visited),
        stack.len() > 0 && !visited.contains(stack.first() as int) ==> {
            let st2 = g.nodes[stack.first() as int].edges + stack.drop_first();
            let v2 = visited.insert(stack.first() as int);
            dfs_ok(g, st2, v2) && v2.len() == visited.len() + 1 && v2.len() <= g.nodes.len()
        },
{
    let range = set_int_range(0, g.nodes.len() as int);
    lemma_int_range(0, g.nodes.len() as int);
    lemma_len_subset(visited, range);
    if stack.len() > 0 {
        let i = stack.first();
        assert(stack[0] < g.nodes.len());
        assert forall|j: int| 0 <= j < stack.drop_first().len() implies (#[trigger] stack.drop_first()[
            j]) < g.nodes.len() by {
            assert(stack.drop_first()[j] == stack[j + 1]);
        }
        if !visited.contains(i as int) {
            let st2 = g.nodes[i as int].edges + stack.drop_first();
            let v2 = visited.insert(i as int);
            assert(v2.subset_of(range));
            lemma_len_subset(v2, range);
            assert forall|j: int| 0 <= j < st2.len() implies (#[trigger] st2[j])
                < g.nodes.len() by {
                if j < g.nodes[i as int].edges.len() {
                    assert(g.nodes[i as int].edges[j] < g.nodes.len());
                } else {
                    assert(st2[j] == stack.drop_first()[j - g.nodes[i as int].edges.len()]);
                }
            }
        }
    }
}

/// The first failure a depth-first type check meets, in visit order: at
/// each fresh position edge-consistency runs first, then
/// store-consistency, and only a clean position's neighbours are walked.
pub open spec fn tc_fold(g: GraphV, stack: Seq<NodeIdx>, visited: Set<int>) -> CheckV
    decreases g.nodes.len() - visited.len(), stack.len()
        when dfs_ok(g, stack, visited)
        via tc_fold_decreases
{
    if stack.len() == 0 {
        CheckV::Good
    } else {
        let i = stack.first();
        if visited.contains(i as int) {
            tc_fold(g, stack.drop_first(), visited)
        } else {
            let n = g.nodes[i as int];
            match first_bad_edge(g.types(), n.self_t, n.edges) {
                Some(et) => CheckV::BadType(n.self_t, et),
                None => {
                    let sc = check_store_spec(g, i as int);
                    if !(sc is Good) {
                        sc
                    } else {
                        tc_fold(g, n.edges + stack.drop_first(), visited.insert(i as int))
                    }
                },
            }
        }
    }
}

#[via_fn]
proof fn tc_fold_decreases(g: GraphV, stack: Seq<NodeIdx>, visited: Set<int>) {
    lemma_dfs_step(g, stack, visited);
}

impl Graph {
    /// A plain depth-first walk from `start` over the neighbour graph,
    /// visiting each reachable position once, in pre-order with
    /// neighbours in the order their edges were added.
    pub fn traverse(&self, start: NodeIdx) -> (r: Vec<NodeIdx>)
        requires
            self@.wf(),
        ensures
            start < self@.nodes.len() ==> r@ == dfs_order(self@, seq![start], Set::empty()),
            start >= self@.nodes.len() ==> r@ == seq![start],
    {
        if start >= self.nodes.len() {
            // an out-of-range start has no stored node: it is visited and
            // the walk ends there
            let mut r: Vec<NodeIdx> = Vec::new();
            r.push(start);
            proof {
                assert(r@ =~= seq![start]);
            }
            return r;
        }
        let ghost g0 = self@;
        let mut visited = VisitedSet::new();
        let mut result: Vec<NodeIdx> = Vec::new();
        let mut stack: Vec<NodeIdx> = Vec::new();
        stack.push(start);
        proof {
            assert(stack@ =~= seq![start]);
        }
        while stack.len() > 0
            invariant
                self@ == g0,
                g0.wf(),
                dfs_ok(g0, stack@, visited_set_of(&visited)),
                visited_set_of(&visited).len() <= g0.nodes.len(),
                dfs_order(g0, seq![start], Set::empty()) == result@ + dfs_order(
                    g0,
                    stack@,
                    visited_set_of(&visited),
                ),
            decreases g0.nodes.len() - visited_set_of(&visited).len(), stack@.len(),
        {
            let ghost stack0 = stack@;
            let ghost v0 = visited_set_of(&visited);
            proof {
                lemma_dfs_step(g0, stack0, v0);
            }
            let i = stack.remove(0);
            proof {
                assert(stack@ =~= stack0.drop_first());
            }
            if visited.contains(i) {
            } else {
                visited.insert(i);
                result.push(i);
                let edges = self.nodes[i].edges();
                let ghost e_seq = g0.nodes[i as int].edges;
                let mut j = edges.len();
                proof {
                    assert(e_seq.skip(j as int) + stack0.drop_first() =~= stack@);
                }
                while j > 0
                    invariant
                        0 <= j <= e_seq.len(),
                        edges@ == e_seq,
                        stack@ == e_seq.skip(j as int) + stack0.drop_first(),
                    decreases j,
                {
                    j = j - 1;
                    stack.insert(0, edges[j]);
                    proof {
                        assert(stack@ =~= e_seq.skip(j as int) + stack0.drop_first());
                    }
                }
                proof {
                    assert(e_seq.skip(0) =~= e_seq);
                    assert(stack@ == e_seq + stack0.drop_first());
                    assert(result@ == (result@.drop_last()).push(i));
                    assert(seq![i] + dfs_order(
                        g0,
                        stack@,
                        visited_set_of(&visited),
                    ) =~= result@.subrange(result@.len() - 1, result@.len() as int) + dfs_order(
                        g0,
                        stack@,
                        visited_set_of(&visited),
                    ));
                    assert((result@.drop_last() + (seq![i] + dfs_order(
                        g0,
                        stack@,
                        visited_set_of(&visited),
                    ))) =~= result@ + dfs_order(g0, stack@, visited_set_of(&visited)));
                }
            }
        }
        proof {
            assert(result@ + dfs_order(g0, stack@, visited_set_of(&visited)) =~= result@);
        }
        result
    }

    /// A depth-first walk from `start` that, at each newly met position,
    /// first checks edge-consistency, then store-consistency, and stops
    /// at the first failure; a position already visited in this walk is
    /// not rechecked.
    pub fn type_check(&self, start: NodeIdx) -> (r: Result<(), TypeErrors>)
        requires
            self@.wf(),
            start < self@.nodes.len(),
            forall|j: int|
                0 <= j < dfs_order(self@, seq![start], Set::empty()).len() ==> check_store_pre(
                    self@,
                    (#[trigger] dfs_order(self@, seq![start], Set::empty())[j]) as int,
                ),
        ensures
            match tc_fold(self@, seq![start], Set::empty()) {
                CheckV::Good => r is Ok,
                CheckV::BadSig(s1, s2) => r matches Err(TypeErrors::ConflictingSignatures(a, b))
                    && a@ == s1 && b@ == s2,
                CheckV::BadType(t1, t2) => r matches Err(TypeErrors::ConflictingInferredTypes(
                    a,
                    b,
                )) && tyv(a) == t1 && tyv(b) == t2,
                CheckV::BadOp(k) => r matches Err(TypeErrors::UnsupportedOperator(kk)) && kk == k,
            },
    {
        let ghost g0 = self@;
        let ghost full_order = dfs_order(self@, seq![start], Set::empty());
        let ghost mut order: Seq<NodeIdx> = Seq::empty();
        let mut visited = VisitedSet::new();
        let mut stack: Vec<NodeIdx> = Vec::new();
        stack.push(start);
        proof {
            assert(stack@ =~= seq![start]);
            assert(order + dfs_order(g0, stack@, visited_set_of(&visited)) =~= full_order);
        }
        while stack.len() > 0
            invariant
                self@ == g0,
                g0.wf(),
                start < g0.nodes.len(),
                full_order == dfs_order(g0, seq![start], Set::empty()),
                forall|j: int|
                    0 <= j < full_order.len() ==> check_store_pre(
                        g0,
                        (#[trigger] full_order[j]) as int,
                    ),
                dfs_ok(g0, stack@, visited_set_of(&visited)),
                visited_set_of(&visited).len() <= g0.nodes.len(),
                full_order == order + dfs_order(g0, stack@, visited_set_of(&visited)),
                tc_fold(g0, seq![start], Set::empty()) == tc_fold(
                    g0,
                    stack@,
                    visited_set_of(&visited),
                ),
            decreases g0.nodes.len() - visited_set_of(&visited).len(), stack@.len(),
        {
            let ghost stack0 = stack@;
            let ghost v0 = visited_set_of(&visited);
            proof {
                lemma_dfs_step(g0, stack0, v0);
            }
            let i = stack.remove(0);
            proof {
                assert(stack@ =~= stack0.drop_first());
            }
            if visited.contains(i) {
            } else {
                proof {
                    // the node at hand is the next entry of the walk
                    // order, so the store-check precondition holds of it
                    assert(dfs_order(g0, stack0, v0) == seq![i] + dfs_order(
                        g0,
                        g0.nodes[i as int].edges + stack0.drop_first(),
                        v0.insert(i as int),
                    ));
                    assert(full_order[order.len() as int] == i);
                    assert(check_store_pre(g0, i as int));
                }
                visited.insert(i);
                match self.check_edges(i) {
                    Err(e) => {
                        return Err(e);
                    },
                    Ok(_) => {},
                }
                match self.check_store(i) {
                    Err(e) => {
                        return Err(e);
                    },
                    Ok(_) => {},
                }
                let edges = self.nodes[i].edges();
                let ghost e_seq = g0.nodes[i as int].edges;
                let mut j = edges.len();
                proof {
                    assert(e_seq.skip(j as int) + stack0.drop_first() =~= stack@);
                }
                while j > 0
                    invariant
                        0 <= j <= e_seq.len(),
                        edges@ == e_seq,
                        stack@ == e_seq.skip(j as int) + stack0.drop_first(),
                    decreases j,
                {
                    j = j - 1;
                    stack.insert(0, edges[j]);
                    proof {
                        assert(stack@ =~= e_seq.skip(j as int) + stack0.drop_first());
                    }
                }
                proof {
                    assert(e_seq.skip(0) =~= e_seq);
                    assert(stack@ == e_seq + stack0.drop_first());
                    assert((order + (seq![i] + dfs_order(
                        g0,
                        stack@,
                        visited_set_of(&visited),
                    ))) =~= (order + seq![i]) + dfs_order(g0, stack@, visited_set_of(&visited)));
                    order = order + seq![i];
                }
            }
        }
        Ok(())
    }
}

/// The least position at or after `from` whose node carries `uuid`.
pub open spec fn first_with_name(nodes: Seq<NodeV>, uuid: u128, from: int) -> Option<int>
    decreases nodes.len() - from,
{
    if from < 0 || from >= nodes.len() {
        None
    } else if nodes[from].name == uuid {
        Some(from)
    } else {
        first_with_name(nodes, uuid, from + 1)
    }
}

} // verus!
