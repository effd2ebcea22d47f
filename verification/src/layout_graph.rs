//! Topology handed to the layout engine: nodes keyed by a stable id, and
//! directed edges between ports. Sizes and positions live with the caller.

use vstd::prelude::*;

use crate::kinds::{default_port_counts, spec_default_port_counts, DelayPairGroup, NodeKind};

verus! {

/// Stable node key supplied by the editor (typically the node index).
pub type LayoutNodeId = usize;

/// A node as the layout engine sees it: kind, port counts and pair link.
#[derive(Clone, Copy, Debug, PartialEq, Eq, Structural)]
pub struct LayoutNode {
    pub id: LayoutNodeId,
    pub kind: NodeKind,
    pub inlets: usize,
    pub outlets: usize,
    /// Links `DelayIn` / `DelayOut` pairs that share no graph edge.
    pub delay_pair: Option<DelayPairGroup>,
}

impl LayoutNode {
    pub fn new(id: LayoutNodeId, kind: NodeKind, inlets: usize, outlets: usize) -> (r: Self)
        ensures
            r == (LayoutNode { id, kind, inlets, outlets, delay_pair: None }),
    {
        LayoutNode { id, kind, inlets, outlets, delay_pair: None }
    }

    /// A node whose port counts follow its kind.
    pub fn new_simple(id: LayoutNodeId, kind: NodeKind) -> (r: Self)
        ensures
            r == (LayoutNode {
                id,
                kind,
                inlets: spec_default_port_counts(kind).0,
                outlets: spec_default_port_counts(kind).1,
                delay_pair: None,
            }),
    {
        let (inlets, outlets) = default_port_counts(kind);
        Self::new(id, kind, inlets, outlets)
    }

    pub fn with_delay_pair(self, hex: u8) -> (r: Self)
        ensures
            r == (LayoutNode { delay_pair: Some(DelayPairGroup::Hex(hex)), ..self }),
    {
        let mut node = self;
        node.delay_pair = Some(DelayPairGroup::Hex(hex));
        node
    }
}

/// A directed wire from an outlet of `from` to an inlet of `to`.
#[derive(Clone, Copy, Debug, PartialEq, Eq, Structural)]
pub struct LayoutEdge {
    pub from: LayoutNodeId,
    pub from_port: usize,
    pub to: LayoutNodeId,
    pub to_port: usize,
}

impl LayoutEdge {
    pub fn new(from: LayoutNodeId, from_port: usize, to: LayoutNodeId, to_port: usize) -> (r: Self)
        ensures
            r == (LayoutEdge { from, from_port, to, to_port }),
    {
        LayoutEdge { from, from_port, to, to_port }
    }
}

/// The ids of `nodes`, in order.
pub open spec fn node_ids_of(nodes: Seq<LayoutNode>) -> Seq<LayoutNodeId> {
    nodes.map_values(|n: LayoutNode| n.id)
}

/// Node ids strictly increase along the sequence (so each id occurs once).
pub open spec fn ids_increasing(nodes: Seq<LayoutNode>) -> bool {
    forall|i: int, j: int| 0 <= i < j < nodes.len() ==> nodes[i].id < nodes[j].id
}

/// The node with id `id`, if any (the last one, should an id repeat).
pub open spec fn lookup(nodes: Seq<LayoutNode>, id: LayoutNodeId) -> Option<LayoutNode>
    decreases nodes.len(),
{
    if nodes.len() == 0 {
        None
    } else if nodes.last().id == id {
        Some(nodes.last())
    } else {
        lookup(nodes.drop_last(), id)
    }
}

/// The edges that end at `id`, in edge order.
pub open spec fn incoming_edges(edges: Seq<LayoutEdge>, id: LayoutNodeId) -> Seq<LayoutEdge>
    decreases edges.len(),
{
    if edges.len() == 0 {
        Seq::empty()
    } else {
        let rest = incoming_edges(edges.drop_last(), id);
        if edges.last().to == id {
            rest.push(edges.last())
        } else {
            rest
        }
    }
}

/// The edges that start at `id`, in edge order.
pub open spec fn outgoing_edges(edges: Seq<LayoutEdge>, id: LayoutNodeId) -> Seq<LayoutEdge>
    decreases edges.len(),
{
    if edges.len() == 0 {
        Seq::empty()
    } else {
        let rest = outgoing_edges(edges.drop_last(), id);
        if edges.last().from == id {
            rest.push(edges.last())
        } else {
            rest
        }
    }
}

/// Whether some edge goes from `a` to `b`.
pub open spec fn has_edge(edges: Seq<LayoutEdge>, a: LayoutNodeId, b: LayoutNodeId) -> bool {
    exists|k: int| 0 <= k < edges.len() && edges[k].from == a && edges[k].to == b
}

pub proof fn lemma_lookup_found(nodes: Seq<LayoutNode>, i: int)
    requires
        ids_increasing(nodes),
        0 <= i < nodes.len(),
    ensures
        lookup(nodes, nodes[i].id) == Some(nodes[i]),
    decreases nodes.len(),
{
    if i < nodes.len() - 1 {
        lemma_lookup_found(nodes.drop_last(), i);
    }
}

pub proof fn lemma_lookup_some(nodes: Seq<LayoutNode>, id: LayoutNodeId)
    requires
        lookup(nodes, id) is Some,
    ensures
        exists|i: int| 0 <= i < nodes.len() && nodes[i] == lookup(nodes, id).unwrap() && nodes[i].id == id,
    decreases nodes.len(),
{
    if nodes.last().id != id {
        lemma_lookup_some(nodes.drop_last(), id);
        let i = choose|i: int| 0 <= i < nodes.drop_last().len() && nodes.drop_last()[i] == lookup(nodes.drop_last(), id).unwrap() && nodes.drop_last()[i].id == id;
        assert(nodes[i] == nodes.drop_last()[i]);
    } else {
        assert(nodes[nodes.len() - 1] == nodes.last());
    }
}

pub proof fn lemma_lookup_none(nodes: Seq<LayoutNode>, id: LayoutNodeId)
    requires
        forall|i: int| 0 <= i < nodes.len() ==> nodes[i].id != id,
    ensures
        lookup(nodes, id) is None,
    decreases nodes.len(),
{
    if nodes.len() > 0 {
        assert(nodes.last() == nodes[nodes.len() - 1]);
        lemma_lookup_none(nodes.drop_last(), id);
    }
}

/// Every edge at position `k` that ends at `id` is counted by `incoming_edges`.
pub proof fn lemma_incoming_contains(edges: Seq<LayoutEdge>, id: LayoutNodeId, k: int)
    requires
        0 <= k < edges.len(),
        edges[k].to == id,
    ensures
        incoming_edges(edges, id).len() >= 1,
        incoming_edges(edges, id).contains(edges[k]),
    decreases edges.len(),
{
    let rest = incoming_edges(edges.drop_last(), id);
    if k < edges.len() - 1 {
        lemma_incoming_contains(edges.drop_last(), id, k);
        assert(edges.drop_last()[k] == edges[k]);
        if edges.last().to == id {
            let j = choose|j: int| 0 <= j < rest.len() && rest[j] == edges[k];
            assert(rest.push(edges.last())[j] == edges[k]);
        }
    } else {
        assert(edges.last() == edges[k]);
        assert(rest.push(edges.last())[rest.len() as int] == edges[k]);
    }
}

/// Two different positions ending at `id` make at least two incoming edges.
pub proof fn lemma_incoming_two(edges: Seq<LayoutEdge>, id: LayoutNodeId, a: int, b: int)
    requires
        0 <= a < b < edges.len(),
        edges[a].to == id,
        edges[b].to == id,
    ensures
        incoming_edges(edges, id).len() >= 2,
    decreases edges.len(),
{
    if b < edges.len() - 1 {
        assert(edges.drop_last()[a] == edges[a]);
        assert(edges.drop_last()[b] == edges[b]);
        lemma_incoming_two(edges.drop_last(), id, a, b);
        lemma_incoming_len_mono(edges, id);
    } else {
        assert(edges.drop_last()[a] == edges[a]);
        lemma_incoming_contains(edges.drop_last(), id, a);
        assert(edges.last() == edges[b]);
    }
}

pub proof fn lemma_incoming_len_mono(edges: Seq<LayoutEdge>, id: LayoutNodeId)
    requires
        edges.len() > 0,
    ensures
        incoming_edges(edges, id).len() >= incoming_edges(edges.drop_last(), id).len(),
{
}

/// Every incoming edge of `id` is an edge of the graph that ends at `id`.
pub proof fn lemma_incoming_members(edges: Seq<LayoutEdge>, id: LayoutNodeId, j: int)
    requires
        0 <= j < incoming_edges(edges, id).len(),
    ensures
        incoming_edges(edges, id)[j].to == id,
        exists|k: int| 0 <= k < edges.len() && edges[k] == incoming_edges(edges, id)[j],
    decreases edges.len(),
{
    let rest = incoming_edges(edges.drop_last(), id);
    if j < rest.len() {
        lemma_incoming_members(edges.drop_last(), id, j);
        let k = choose|k: int| 0 <= k < edges.drop_last().len() && edges.drop_last()[k] == rest[j];
        assert(edges[k] == edges.drop_last()[k]);
        if edges.last().to == id {
            assert(incoming_edges(edges, id)[j] == rest[j]);
        }
    } else {
        assert(edges[edges.len() - 1] == edges.last());
    }
}

pub proof fn lemma_outgoing_contains(edges: Seq<LayoutEdge>, id: LayoutNodeId, k: int)
    requires
        0 <= k < edges.len(),
        edges[k].from == id,
    ensures
        outgoing_edges(edges, id).len() >= 1,
        outgoing_edges(edges, id).contains(edges[k]),
    decreases edges.len(),
{
    let rest = outgoing_edges(edges.drop_last(), id);
    if k < edges.len() - 1 {
        lemma_outgoing_contains(edges.drop_last(), id, k);
        assert(edges.drop_last()[k] == edges[k]);
        if edges.last().from == id {
            let j = choose|j: int| 0 <= j < rest.len() && rest[j] == edges[k];
            assert(rest.push(edges.last())[j] == edges[k]);
        }
    } else {
        assert(edges.last() == edges[k]);
        assert(rest.push(edges.last())[rest.len() as int] == edges[k]);
    }
}

pub proof fn lemma_outgoing_two(edges: Seq<LayoutEdge>, id: LayoutNodeId, a: int, b: int)
    requires
        0 <= a < b < edges.len(),
        edges[a].from == id,
        edges[b].from == id,
    ensures
        outgoing_edges(edges, id).len() >= 2,
    decreases edges.len(),
{
    if b < edges.len() - 1 {
        assert(edges.drop_last()[a] == edges[a]);
        assert(edges.drop_last()[b] == edges[b]);
        lemma_outgoing_two(edges.drop_last(), id, a, b);
    } else {
        assert(edges.drop_last()[a] == edges[a]);
        lemma_outgoing_contains(edges.drop_last(), id, a);
        assert(edges.last() == edges[b]);
    }
}

pub proof fn lemma_outgoing_members(edges: Seq<LayoutEdge>, id: LayoutNodeId, j: int)
    requires
        0 <= j < outgoing_edges(edges, id).len(),
    ensures
        outgoing_edges(edges, id)[j].from == id,
        exists|k: int| 0 <= k < edges.len() && edges[k] == outgoing_edges(edges, id)[j],
    decreases edges.len(),
{
    let rest = outgoing_edges(edges.drop_last(), id);
    if j < rest.len() {
        lemma_outgoing_members(edges.drop_last(), id, j);
        let k = choose|k: int| 0 <= k < edges.drop_last().len() && edges.drop_last()[k] == rest[j];
        assert(edges[k] == edges.drop_last()[k]);
        if edges.last().from == id {
            assert(outgoing_edges(edges, id)[j] == rest[j]);
        }
    } else {
        assert(edges[edges.len() - 1] == edges.last());
    }
}

/// Topology + port counts for layout, nodes kept in increasing id order.
pub struct LayoutGraph {
    nodes: Vec<LayoutNode>,
    edges: Vec<LayoutEdge>,
}

impl LayoutGraph {
    /// The nodes, in increasing id order.
    pub closed spec fn node_seq(self) -> Seq<LayoutNode> {
        self.nodes@
    }

    /// The edges, in insertion order.
    pub closed spec fn edge_seq(self) -> Seq<LayoutEdge> {
        self.edges@
    }

    #[verifier::type_invariant]
    pub open spec fn well_formed(self) -> bool {
        ids_increasing(self.node_seq())
    }

    /// The node stored under `id`.
    pub open spec fn spec_node(self, id: LayoutNodeId) -> Option<LayoutNode> {
        lookup(self.node_seq(), id)
    }

    /// The ids of all nodes, in increasing order.
    pub open spec fn spec_node_ids(self) -> Seq<LayoutNodeId> {
        node_ids_of(self.node_seq())
    }

    pub fn new() -> (g: Self)
        ensures
            g.node_seq() == Seq::<LayoutNode>::empty(),
            g.edge_seq() == Seq::<LayoutEdge>::empty(),
    {
        LayoutGraph { nodes: Vec::new(), edges: Vec::new() }
    }

    /// Inserts `node`, replacing any node with the same id; returns the id.
    pub fn add_node(&mut self, node: LayoutNode) -> (id: LayoutNodeId)
        ensures
            id == node.id,
            final(self).edge_seq() == old(self).edge_seq(),
            forall|x: LayoutNodeId|
                #[trigger] final(self).spec_node(x) == if x == node.id {
                    Some(node)
                } else {
                    old(self).spec_node(x)
                },
            forall|x: LayoutNodeId|
                #[trigger] final(self).spec_node_ids().contains(x) <==> (x == node.id
                    || old(self).spec_node_ids().contains(x)),
    {
        proof {
            use_type_invariant(&*self);
        }
        let ghost old_nodes = self.nodes@;
        let mut pos: usize = 0;
        while pos < self.nodes.len() && self.nodes[pos].id < node.id
            invariant
                0 <= pos <= self.nodes.len(),
                self.nodes@ == old_nodes,
                ids_increasing(old_nodes),
                forall|i: int| 0 <= i < pos ==> old_nodes[i].id < node.id,
            decreases self.nodes.len() - pos,
        {
            pos = pos + 1;
        }
        let mut nodes = self.nodes.clone();
        assert(nodes@ =~= old_nodes);
        let replace = pos < nodes.len() && nodes[pos].id == node.id;
        if replace {
            nodes.set(pos, node);
        } else {
            nodes.insert(pos, node);
        }
        let ghost new_nodes = nodes@;
        assert(ids_increasing(new_nodes)) by {
            assert forall|i: int, j: int| 0 <= i < j < new_nodes.len() implies new_nodes[i].id
                < new_nodes[j].id by {
                if replace {
                    if i != pos as int && j != pos as int {
                        assert(new_nodes[i] == old_nodes[i]);
                        assert(new_nodes[j] == old_nodes[j]);
                    }
                } else {
                    if i < pos {
                        assert(new_nodes[i] == old_nodes[i]);
                    }
                    if j > pos {
                        assert(new_nodes[j] == old_nodes[j - 1]);
                        if i > pos {
                            assert(new_nodes[i] == old_nodes[i - 1]);
                        }
                    }
                    if j < pos {
                        assert(new_nodes[j] == old_nodes[j]);
                    }
                }
            }
        }
        assert forall|x: LayoutNodeId| #[trigger]
            lookup(new_nodes, x) == if x == node.id {
                Some(node)
            } else {
                lookup(old_nodes, x)
            } by {
            if x == node.id {
                lemma_lookup_found(new_nodes, pos as int);
            } else if lookup(old_nodes, x) is Some {
                lemma_lookup_some(old_nodes, x);
                let i = choose|i: int|
                    0 <= i < old_nodes.len() && old_nodes[i] == lookup(old_nodes, x).unwrap()
                        && old_nodes[i].id == x;
                let ni = if replace || i < pos { i } else { i + 1 };
                assert(new_nodes[ni] == old_nodes[i]);
                lemma_lookup_found(old_nodes, i);
                lemma_lookup_found(new_nodes, ni);
            } else {
                assert forall|i: int| 0 <= i < new_nodes.len() implies new_nodes[i].id != x by {
                    if new_nodes[i].id == x {
                        let oi = if replace || i < pos { i } else { i - 1 };
                        assert(new_nodes[i] == old_nodes[oi]);
                        lemma_lookup_found(old_nodes, oi);
                    }
                }
                lemma_lookup_none(new_nodes, x);
            }
        }
        assert forall|x: LayoutNodeId|
            #[trigger] node_ids_of(new_nodes).contains(x) <==> (x == node.id
                || node_ids_of(old_nodes).contains(x)) by {
            let nm = node_ids_of(new_nodes);
            let om = node_ids_of(old_nodes);
            if nm.contains(x) {
                let i = choose|i: int| 0 <= i < nm.len() && nm[i] == x;
                if x != node.id {
                    let oi = if replace || i < pos { i } else { i - 1 };
                    assert(new_nodes[i] == old_nodes[oi]);
                    assert(om[oi] == x);
                }
            }
            if x == node.id {
                assert(nm[pos as int] == x);
            } else if om.contains(x) {
                let i = choose|i: int| 0 <= i < om.len() && om[i] == x;
                let ni = if replace || i < pos { i } else { i + 1 };
                assert(new_nodes[ni] == old_nodes[i]);
                assert(nm[ni] == x);
            }
        }
        self.nodes = nodes;
        node.id
    }

    pub fn add_edge(&mut self, edge: LayoutEdge)
        ensures
            final(self).edge_seq() == old(self).edge_seq().push(edge),
            final(self).node_seq() == old(self).node_seq(),
    {
        proof {
            use_type_invariant(&*self);
        }
        let mut edges = self.edges.clone();
        assert(edges@ =~= self.edges@);
        edges.push(edge);
        self.edges = edges;
    }

    pub fn node(&self, id: LayoutNodeId) -> (r: Option<&LayoutNode>)
        ensures
            r is Some <==> self.spec_node(id) is Some,
            r is Some ==> *r.unwrap() == self.spec_node(id).unwrap(),
    {
        proof {
            use_type_invariant(self);
        }
        let mut i: usize = 0;
        while i < self.nodes.len()
            invariant
                0 <= i <= self.nodes.len(),
                ids_increasing(self.nodes@),
                forall|k: int| 0 <= k < i ==> self.nodes@[k].id != id,
            decreases self.nodes.len() - i,
        {
            if self.nodes[i].id == id {
                proof {
                    lemma_lookup_found(self.nodes@, i as int);
                }
                return Some(&self.nodes[i]);
            }
            i = i + 1;
        }
        proof {
            lemma_lookup_none(self.nodes@, id);
        }
        None
    }

    /// All nodes, in increasing id order.
    pub fn nodes(&self) -> (r: &[LayoutNode])
        ensures
            r@ == self.node_seq(),
            ids_increasing(r@),
    {
        proof {
            use_type_invariant(self);
        }
        self.nodes.as_slice()
    }

    pub fn edges(&self) -> (r: &[LayoutEdge])
        ensures
            r@ == self.edge_seq(),
    {
        self.edges.as_slice()
    }

    /// Node ids in increasing order.
    pub fn sorted_node_ids(&self) -> (ids: Vec<LayoutNodeId>)
        ensures
            ids@ == self.spec_node_ids(),
            forall|i: int, j: int| 0 <= i < j < ids@.len() ==> ids@[i] < ids@[j],
    {
        proof {
            use_type_invariant(self);
        }
        let mut ids: Vec<LayoutNodeId> = Vec::new();
        let mut i: usize = 0;
        while i < self.nodes.len()
            invariant
                0 <= i <= self.nodes.len(),
                ids@ == node_ids_of(self.nodes@.take(i as int)),
            decreases self.nodes.len() - i,
        {
            ids.push(self.nodes[i].id);
            i = i + 1;
            assert(ids@ =~= node_ids_of(self.nodes@.take(i as int)));
        }
        assert(self.nodes@.take(i as int) =~= self.nodes@);
        ids
    }

    /// The edges that end at `id`, in edge order.
    pub fn incoming(&self, id: LayoutNodeId) -> (r: Vec<LayoutEdge>)
        ensures
            r@ == incoming_edges(self.edge_seq(), id),
    {
        let mut r: Vec<LayoutEdge> = Vec::new();
        let mut i: usize = 0;
        while i < self.edges.len()
            invariant
                0 <= i <= self.edges.len(),
                r@ == incoming_edges(self.edges@.take(i as int), id),
            decreases self.edges.len() - i,
        {
            assert(self.edges@.take(i + 1).drop_last() =~= self.edges@.take(i as int));
            if self.edges[i].to == id {
                r.push(self.edges[i]);
            }
            i = i + 1;
        }
        assert(self.edges@.take(i as int) =~= self.edges@);
        r
    }

    /// The edges that start at `id`, in edge order.
    pub fn outgoing(&self, id: LayoutNodeId) -> (r: Vec<LayoutEdge>)
        ensures
            r@ == outgoing_edges(self.edge_seq(), id),
    {
        let mut r: Vec<LayoutEdge> = Vec::new();
        let mut i: usize = 0;
        while i < self.edges.len()
            invariant
                0 <= i <= self.edges.len(),
                r@ == outgoing_edges(self.edges@.take(i as int), id),
            decreases self.edges.len() - i,
        {
            assert(self.edges@.take(i + 1).drop_last() =~= self.edges@.take(i as int));
            if self.edges[i].from == id {
                r.push(self.edges[i]);
            }
            i = i + 1;
        }
        assert(self.edges@.take(i as int) =~= self.edges@);
        r
    }

    /// Same as [`Self::sorted_node_ids`]: ids are kept in order.
    pub fn node_ids(&self) -> (ids: Vec<LayoutNodeId>)
        ensures
            ids@ == self.spec_node_ids(),
    {
        self.sorted_node_ids()
    }
}

} // verus!
