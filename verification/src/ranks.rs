//! Topological order of the layout graph and rank assignment for units.

use vstd::prelude::*;

use crate::layout_graph::{LayoutEdge, LayoutGraph, LayoutNodeId};

verus! {

/// The order `petgraph::algo::toposort` returns for a `DiGraph` with nodes
/// `0..n` added in order and the given edges added in order, or `None` when it
/// reports a cycle.
pub uninterp spec fn petgraph_toposort(n: nat, edges: Seq<(usize, usize)>) -> Option<Seq<usize>>;

/// `a` occurs strictly before `b` in `order`.
pub open spec fn precedes(order: Seq<usize>, a: usize, b: usize) -> bool {
    exists|i: int, j: int| 0 <= i < j < order.len() && order[i] == a && order[j] == b
}

/// `order` lists `0..n` once each, every edge's source before its target.
pub open spec fn is_topological_order(n: nat, edges: Seq<(usize, usize)>, order: Seq<usize>) -> bool {
    &&& order.len() == n
    &&& order.no_duplicates()
    &&& forall|i: int| 0 <= i < order.len() ==> #[trigger] order[i] < n
    &&& forall|k: int|
        0 <= k < edges.len() ==> #[trigger] precedes(order, edges[k].0, edges[k].1)
}

/// Calls `petgraph::algo::toposort` on a `DiGraph` with nodes `0..n` and the
/// given edges. The contract states what its documentation and source give:
/// `Some` holds every node once with each edge's source before its target,
/// and `None` (a `Cycle` error) comes exactly when no such order exists.
/// Which of the valid orders comes back is named, not stated.
#[verifier::external_body]
pub(crate) fn toposort_positions(n: usize, edges: &Vec<(usize, usize)>) -> (r: Option<Vec<usize>>)
    requires
        n < 4294967295,
        edges@.len() < 4294967295,
        forall|k: int| 0 <= k < edges@.len() ==> #[trigger] edges@[k].0 < n && edges@[k].1 < n,
    ensures
        match r {
            Some(order) => petgraph_toposort(n as nat, edges@) == Some(order@)
                && is_topological_order(n as nat, edges@, order@),
            None => petgraph_toposort(n as nat, edges@) is None && forall|o: Seq<usize>|
                !#[trigger] is_topological_order(n as nat, edges@, o),
        },
{
    let mut g = petgraph::graph::DiGraph::<(), ()>::new();
    for _ in 0..n {
        g.add_node(());
    }
    for &(a, b) in edges.iter() {
        g.add_edge(petgraph::graph::NodeIndex::new(a), petgraph::graph::NodeIndex::new(b), ());
    }
    petgraph::algo::toposort(&g, None).ok().map(|order| order.into_iter().map(|ix| ix.index()).collect())
}

/// Position of `x` in `ids` (the last one, should `x` repeat).
pub open spec fn id_pos(ids: Seq<LayoutNodeId>, x: LayoutNodeId) -> Option<int>
    decreases ids.len(),
{
    if ids.len() == 0 {
        None
    } else if ids.last() == x {
        Some(ids.len() - 1)
    } else {
        id_pos(ids.drop_last(), x)
    }
}

/// Edges between known nodes, as pairs of positions in `ids`, in edge order.
pub open spec fn known_edge_positions(ids: Seq<LayoutNodeId>, edges: Seq<LayoutEdge>) -> Seq<(usize, usize)>
    decreases edges.len(),
{
    if edges.len() == 0 {
        Seq::empty()
    } else {
        let rest = known_edge_positions(ids, edges.drop_last());
        let e = edges.last();
        match (id_pos(ids, e.from), id_pos(ids, e.to)) {
            (Some(a), Some(b)) => rest.push((a as usize, b as usize)),
            _ => rest,
        }
    }
}

/// Node ids in the order of the topological sort, or in id order when the
/// graph has a cycle.
pub open spec fn spec_topo_sort_nodes(g: LayoutGraph) -> Seq<LayoutNodeId> {
    let ids = g.spec_node_ids();
    match petgraph_toposort(ids.len(), known_edge_positions(ids, g.edge_seq())) {
        Some(o) => o.map_values(|i: usize| ids[i as int]),
        None => ids,
    }
}

/// Whether the edges between known nodes admit a topological order.
pub open spec fn spec_graph_acyclic(g: LayoutGraph) -> bool {
    petgraph_toposort(g.spec_node_ids().len(), known_edge_positions(g.spec_node_ids(), g.edge_seq())) is Some
}

pub(crate) proof fn lemma_id_pos(ids: Seq<LayoutNodeId>, x: LayoutNodeId)
    ensures
        match id_pos(ids, x) {
            Some(i) => 0 <= i < ids.len() && ids[i] == x,
            None => !ids.contains(x),
        },
    decreases ids.len(),
{
    if ids.len() > 0 && ids.last() != x {
        lemma_id_pos(ids.drop_last(), x);
        if ids.contains(x) {
            let i = choose|i: int| 0 <= i < ids.len() && ids[i] == x;
            assert(ids.drop_last()[i] == x);
        }
    }
}

pub(crate) fn find_pos(ids: &Vec<LayoutNodeId>, x: LayoutNodeId) -> (r: Option<usize>)
    ensures
        match id_pos(ids@, x) {
            Some(i) => r == Some(i as usize),
            None => r is None,
        },
{
    let mut k = ids.len();
    assert(ids@.take(k as int) =~= ids@);
    while k > 0
        invariant
            0 <= k <= ids@.len(),
            id_pos(ids@, x) == id_pos(ids@.take(k as int), x),
        decreases k,
    {
        assert(ids@.take(k as int).drop_last() =~= ids@.take(k - 1));
        assert(ids@.take(k as int).last() == ids@[k - 1]);
        if ids[k - 1] == x {
            return Some(k - 1);
        }
        k = k - 1;
    }
    None
}

proof fn lemma_known_positions_bounded(ids: Seq<LayoutNodeId>, edges: Seq<LayoutEdge>, k: int)
    requires
        0 <= k < known_edge_positions(ids, edges).len(),
    ensures
        known_edge_positions(ids, edges)[k].0 < ids.len(),
        known_edge_positions(ids, edges)[k].1 < ids.len(),
        known_edge_positions(ids, edges).len() <= edges.len(),
    decreases edges.len(),
{
    let rest = known_edge_positions(ids, edges.drop_last());
    lemma_known_positions_len(ids, edges.drop_last());
    if k < rest.len() {
        lemma_known_positions_bounded(ids, edges.drop_last(), k);
    } else {
        lemma_id_pos(ids, edges.last().from);
        lemma_id_pos(ids, edges.last().to);
    }
}

proof fn lemma_known_positions_len(ids: Seq<LayoutNodeId>, edges: Seq<LayoutEdge>)
    ensures
        known_edge_positions(ids, edges).len() <= edges.len(),
    decreases edges.len(),
{
    if edges.len() > 0 {
        lemma_known_positions_len(ids, edges.drop_last());
    }
}

/// Edges between known nodes, as positions among the sorted ids.
fn edge_positions(g: &LayoutGraph, ids: &Vec<LayoutNodeId>) -> (r: Vec<(usize, usize)>)
    ensures
        r@ == known_edge_positions(ids@, g.edge_seq()),
{
    let edges = g.edges();
    let mut r: Vec<(usize, usize)> = Vec::new();
    let mut i: usize = 0;
    while i < edges.len()
        invariant
            0 <= i <= edges@.len(),
            edges@ == g.edge_seq(),
            r@ == known_edge_positions(ids@, edges@.take(i as int)),
        decreases edges.len() - i,
    {
        assert(edges@.take(i + 1).drop_last() =~= edges@.take(i as int));
        assert(edges@.take(i + 1).last() == edges@[i as int]);
        let e = edges[i];
        let a = find_pos(ids, e.from);
        let b = find_pos(ids, e.to);
        match (a, b) {
            (Some(a), Some(b)) => {
                r.push((a, b));
            },
            _ => {},
        }
        i = i + 1;
    }
    assert(edges@.take(i as int) =~= edges@);
    r
}

/// Node ids in topological order (every edge between two nodes of the graph
/// goes from an earlier to a later id); in increasing id order when the graph
/// has a cycle. Edges that name a missing node are ignored.
pub fn topo_sort_nodes(g: &LayoutGraph) -> (order: Vec<LayoutNodeId>)
    requires
        g.spec_node_ids().len() < 4294967295,
        g.edge_seq().len() < 4294967295,
    ensures
        order@ == spec_topo_sort_nodes(*g),
        spec_graph_acyclic(*g) ==> order@.len() == g.spec_node_ids().len() && order@.to_set()
            == g.spec_node_ids().to_set(),
        spec_graph_acyclic(*g) ==> forall|k: int|
            0 <= k < g.edge_seq().len() && g.spec_node_ids().contains(g.edge_seq()[k].from)
                && g.spec_node_ids().contains(g.edge_seq()[k].to) ==> precedes(
                order@,
                #[trigger] g.edge_seq()[k].from,
                g.edge_seq()[k].to,
            ),
{
    let ids = g.sorted_node_ids();
    let pe = edge_positions(g, &ids);
    proof {
        lemma_known_positions_len(ids@, g.edge_seq());
        assert forall|k: int| 0 <= k < pe@.len() implies #[trigger] pe@[k].0 < ids.len() && pe@[k].1
            < ids.len() by {
            lemma_known_positions_bounded(ids@, g.edge_seq(), k);
        }
    }
    match toposort_positions(ids.len(), &pe) {
        Some(pos_order) => {
            let mut order: Vec<LayoutNodeId> = Vec::new();
            let mut i: usize = 0;
            while i < pos_order.len()
                invariant
                    0 <= i <= pos_order@.len(),
                    is_topological_order(ids@.len() as nat, pe@, pos_order@),
                    order@ == pos_order@.take(i as int).map_values(|p: usize| ids@[p as int]),
                decreases pos_order.len() - i,
            {
                order.push(ids[pos_order[i]]);
                i = i + 1;
                assert(order@ =~= pos_order@.take(i as int).map_values(|p: usize| ids@[p as int]));
            }
            assert(pos_order@.take(i as int) =~= pos_order@);
            proof {
                lemma_topo_order_facts(*g, ids@, pe@, pos_order@, order@);
            }
            order
        },
        None => ids,
    }
}

proof fn lemma_topo_order_facts(
    g: LayoutGraph,
    ids: Seq<LayoutNodeId>,
    pe: Seq<(usize, usize)>,
    po: Seq<usize>,
    order: Seq<LayoutNodeId>,
)
    requires
        ids == g.spec_node_ids(),
        ids.len() <= usize::MAX,
        forall|a: int, b: int| 0 <= a < b < ids.len() ==> ids[a] < ids[b],
        pe == known_edge_positions(ids, g.edge_seq()),
        is_topological_order(ids.len() as nat, pe, po),
        order == po.map_values(|p: usize| ids[p as int]),
    ensures
        order.len() == ids.len() && order.to_set() == ids.to_set(),
        forall|k: int|
            0 <= k < g.edge_seq().len() && ids.contains(g.edge_seq()[k].from) && ids.contains(
                g.edge_seq()[k].to,
            ) ==> precedes(order, #[trigger] g.edge_seq()[k].from, g.edge_seq()[k].to),
{
    // Every position 0..n occurs in `po`, so every id occurs in `order`.
    let n = ids.len();
    lemma_order_covers(n, pe, po);
    assert forall|x: LayoutNodeId| order.to_set().contains(x) <==> ids.to_set().contains(x) by {
        if order.to_set().contains(x) {
            let i = choose|i: int| 0 <= i < order.len() && order[i] == x;
            assert(ids[po[i] as int] == x);
        }
        if ids.to_set().contains(x) {
            let j = choose|j: int| 0 <= j < ids.len() && ids[j] == x;
            assert(po.to_set().contains(j as usize));
            let i = choose|i: int| 0 <= i < po.len() && po[i] == j as usize;
            assert(order[i] == x);
        }
    }
    assert(order.to_set() =~= ids.to_set());
    assert forall|k: int|
        0 <= k < g.edge_seq().len() && ids.contains(g.edge_seq()[k].from) && ids.contains(
            g.edge_seq()[k].to,
        ) implies precedes(order, #[trigger] g.edge_seq()[k].from, g.edge_seq()[k].to) by {
        let e = g.edge_seq()[k];
        let kk = lemma_known_positions_has(ids, g.edge_seq(), k);
        assert(precedes(po, pe[kk].0, pe[kk].1));
        let (i, j) = choose|i: int, j: int| 0 <= i < j < po.len() && po[i] == pe[kk].0 && po[j] == pe[kk].1;
        assert(order[i] == e.from);
        assert(order[j] == e.to);
    }
}

/// A topological order of `0..n` lists every one of `0..n`.
pub proof fn lemma_order_covers(n: nat, edges: Seq<(usize, usize)>, o: Seq<usize>)
    requires
        is_topological_order(n, edges, o),
    ensures
        o.to_set() =~= Set::new(|p: usize| p < n),
        forall|p: usize| p < n ==> o.contains(p),
{
    o.unique_seq_to_set();
    let full = Set::new(|p: usize| p < n);
    assert(o.to_set().subset_of(full));
    lemma_range_set_len(n);
    vstd::set_lib::lemma_len_subset(o.to_set(), full);
    vstd::set_lib::lemma_subset_equality(o.to_set(), full);
    assert forall|p: usize| p < n implies o.contains(p) by {
        assert(full.contains(p));
        assert(o.to_set().contains(p));
    }
}

pub(crate) proof fn lemma_range_set_len(n: nat)
    ensures
        Set::new(|p: usize| p < n).finite(),
        Set::new(|p: usize| p < n).len() <= n,
    decreases n,
{
    let s = Set::new(|p: usize| p < n);
    if n == 0 {
        assert(s =~= Set::<usize>::empty());
    } else {
        lemma_range_set_len((n - 1) as nat);
        let t = Set::new(|p: usize| p < (n - 1) as nat);
        if n - 1 <= usize::MAX {
            assert(s =~= t.insert((n - 1) as usize));
        } else {
            assert(s =~= t);
        }
    }
}

/// An edge between known nodes has its positions listed.
proof fn lemma_known_positions_has(ids: Seq<LayoutNodeId>, edges: Seq<LayoutEdge>, k: int) -> (kk: int)
    requires
        0 <= k < edges.len(),
        ids.contains(edges[k].from),
        ids.contains(edges[k].to),
        ids.len() <= usize::MAX,
        forall|a: int, b: int| 0 <= a < b < ids.len() ==> ids[a] < ids[b],
    ensures
        0 <= kk < known_edge_positions(ids, edges).len(),
        ids[known_edge_positions(ids, edges)[kk].0 as int] == edges[k].from,
        ids[known_edge_positions(ids, edges)[kk].1 as int] == edges[k].to,
    decreases edges.len(),
{
    let rest = known_edge_positions(ids, edges.drop_last());
    lemma_id_pos(ids, edges.last().from);
    lemma_id_pos(ids, edges.last().to);
    if k < edges.len() - 1 {
        assert(edges.drop_last()[k] == edges[k]);
        let kk = lemma_known_positions_has(ids, edges.drop_last(), k);
        assert(known_edge_positions(ids, edges)[kk] == rest[kk]);
        kk
    } else {
        assert(edges.last() == edges[k]);
        let a = id_pos(ids, edges.last().from).unwrap();
        let b = id_pos(ids, edges.last().to).unwrap();
        assert(known_edge_positions(ids, edges) == rest.push((a as usize, b as usize)));
        rest.len() as int
    }
}

} // verus!
