//! Topology questions the layered layout asks: spine roots and their
//! columns, combiner feeders, signal ids, and which units sit side by side.

use std::collections::HashMap;
use std::collections::HashSet;

use vstd::prelude::*;

use crate::kinds::{DelayPairGroup, NodeKind};
use crate::layout_graph::{has_edge, incoming_edges, outgoing_edges, LayoutEdge, LayoutGraph, LayoutNodeId};
use crate::units::{is_dual_inlet_combiner, spec_is_dual_inlet_combiner, LayoutUnit, UnitLayout};

verus! {

broadcast use vstd::std_specs::hash::group_hash_axioms;

/// The node exists and is a `[receive]`.
pub open spec fn spec_parent_is_receive(g: LayoutGraph, id: LayoutNodeId) -> bool {
    g.spec_node(id) matches Some(n) && n.kind == NodeKind::Receive
}

pub fn parent_is_receive(graph: &LayoutGraph, id: LayoutNodeId) -> (r: bool)
    ensures
        r == spec_parent_is_receive(*graph, id),
{
    match graph.node(id) {
        Some(node) => matches!(node.kind, NodeKind::Receive),
        None => false,
    }
}

/// Top of a vertical spine: an existing node other than a `[receive]` with
/// no incoming edge, or whose only incoming edge comes from a `[receive]`.
pub open spec fn spec_is_spine_root(g: LayoutGraph, id: LayoutNodeId) -> bool {
    let ins = incoming_edges(g.edge_seq(), id);
    &&& g.spec_node(id) matches Some(n) && n.kind != NodeKind::Receive
    &&& ins.len() == 0 || (ins.len() == 1 && spec_parent_is_receive(g, ins[0].from))
}

pub fn is_spine_root(graph: &LayoutGraph, id: LayoutNodeId) -> (r: bool)
    ensures
        r == spec_is_spine_root(*graph, id),
{
    let node = match graph.node(id) {
        Some(n) => n,
        None => {
            return false;
        },
    };
    if matches!(node.kind, NodeKind::Receive) {
        return false;
    }
    let edges = graph.incoming(id);
    if edges.len() == 0 {
        true
    } else if edges.len() == 1 {
        parent_is_receive(graph, edges[0].from)
    } else {
        false
    }
}

/// The spine roots of `component`, in increasing id order.
pub open spec fn spine_roots(g: LayoutGraph, component: Set<LayoutNodeId>) -> Seq<LayoutNodeId> {
    g.spec_node_ids().filter(|id: LayoutNodeId| component.contains(id) && spec_is_spine_root(g, id))
}

/// Each spine root of `component` mapped to its column: its position among
/// the component's spine roots in increasing id order.
pub fn assign_spine_root_columns(graph: &LayoutGraph, component: &HashSet<LayoutNodeId>) -> (cols: HashMap<
    LayoutNodeId,
    u32,
>)
    requires
        graph.spec_node_ids().len() < u32::MAX,
    ensures
        ({
            let roots = spine_roots(*graph, component@);
            &&& forall|x: LayoutNodeId| #[trigger] cols@.contains_key(x) <==> roots.contains(x)
            &&& forall|k: int| 0 <= k < roots.len() ==> cols@[#[trigger] roots[k]] == k
        }),
{
    let ids = graph.sorted_node_ids();
    let ghost pred = |id: LayoutNodeId| component@.contains(id) && spec_is_spine_root(*graph, id);
    let mut cols: HashMap<LayoutNodeId, u32> = HashMap::new();
    let mut col: u32 = 0;
    let mut i: usize = 0;
    assert(ids@.take(0).filter(pred) =~= Seq::<LayoutNodeId>::empty());
    while i < ids.len()
        invariant
            0 <= i <= ids@.len(),
            ids@ == graph.spec_node_ids(),
            ids@.len() < u32::MAX,
            forall|a: int, b: int| 0 <= a < b < ids@.len() ==> ids@[a] < ids@[b],
            pred == (|id: LayoutNodeId| component@.contains(id) && spec_is_spine_root(*graph, id)),
            col == ids@.take(i as int).filter(pred).len(),
            col <= i,
            forall|x: LayoutNodeId|
                #[trigger] cols@.contains_key(x) <==> ids@.take(i as int).filter(pred).contains(x),
            forall|k: int|
                0 <= k < col ==> cols@[#[trigger] ids@.take(i as int).filter(pred)[k]] == k,
        decreases ids.len() - i,
    {
        let ghost before = ids@.take(i as int).filter(pred);
        let id = ids[i];
        assert(ids@.take(i + 1) =~= ids@.take(i as int).push(id));
        proof {
            ids@.take(i as int).lemma_filter_push(id, pred);
        }
        let ghost old_cols = cols@;
        if component.contains(&id) && is_spine_root(graph, id) {
            cols.insert(id, col);
            col = col + 1;
            proof {
                let after = ids@.take(i + 1).filter(pred);
                assert(after == before.push(id));
                // Earlier roots are smaller ids, so `id` is new.
                assert forall|k: int| 0 <= k < before.len() implies before[k] < id by {
                    assert(ids@.take(i as int).filter(pred).contains(before[k]));
                    ids@.take(i as int).lemma_filter_contains_rev(pred, before[k]);
                    let j = choose|j: int| 0 <= j < i && ids@.take(i as int)[j] == before[k];
                    assert(ids@[j] == before[k]);
                }
                assert forall|x: LayoutNodeId| #[trigger] cols@.contains_key(x) <==> after.contains(x) by {
                    assert(cols@.contains_key(x) <==> (old_cols.contains_key(x) || x == id));
                    assert(old_cols.contains_key(x) <==> before.contains(x));
                    assert(after[after.len() - 1] == id);
                    if after.contains(x) && x != id {
                        let q = choose|q: int| 0 <= q < after.len() && after[q] == x;
                        assert(before[q] == x);
                    }
                    if before.contains(x) {
                        let q = choose|q: int| 0 <= q < before.len() && before[q] == x;
                        assert(after[q] == x);
                    }
                }
                assert forall|k: int| 0 <= k < col implies cols@[#[trigger] after[k]] == k by {
                    if k < before.len() {
                        assert(after[k] == before[k]);
                        assert(before[k] < id);
                    }
                }
            }
        } else {
            proof {
                assert(!pred(id));
                assert(ids@.take(i + 1).filter(pred) == before);
            }
        }
        i = i + 1;
    }
    assert(ids@.take(i as int) =~= ids@);
    cols
}

/// The node has outgoing edges and every one of them ends at an existing
/// dual-inlet combiner.
pub open spec fn spec_is_combiner_only_feeder(g: LayoutGraph, id: LayoutNodeId) -> bool {
    let outs = outgoing_edges(g.edge_seq(), id);
    &&& outs.len() > 0
    &&& forall|k: int|
        0 <= k < outs.len() ==> (g.spec_node(#[trigger] outs[k].to) matches Some(n)
            && spec_is_dual_inlet_combiner(n))
}

pub fn is_combiner_only_feeder(graph: &LayoutGraph, id: LayoutNodeId) -> (r: bool)
    ensures
        r == spec_is_combiner_only_feeder(*graph, id),
{
    let edges = graph.outgoing(id);
    if edges.len() == 0 {
        return false;
    }
    let mut k: usize = 0;
    while k < edges.len()
        invariant
            0 <= k <= edges@.len(),
            edges@ == outgoing_edges(graph.edge_seq(), id),
            forall|j: int|
                0 <= j < k ==> (graph.spec_node(#[trigger] edges@[j].to) matches Some(n)
                    && spec_is_dual_inlet_combiner(n)),
        decreases edges.len() - k,
    {
        let ok = match graph.node(edges[k].to) {
            Some(n) => is_dual_inlet_combiner(n),
            None => false,
        };
        if !ok {
            return false;
        }
        k = k + 1;
    }
    true
}

/// The signal / delay id recorded on the node, if any.
pub open spec fn spec_signal_hex(g: LayoutGraph, id: LayoutNodeId) -> Option<u8> {
    match g.spec_node(id) {
        Some(n) => match n.delay_pair {
            Some(DelayPairGroup::Hex(h)) => Some(h),
            None => None,
        },
        None => None,
    }
}

pub fn signal_hex(graph: &LayoutGraph, id: LayoutNodeId) -> (r: Option<u8>)
    ensures
        r == spec_signal_hex(*graph, id),
        graph.spec_node(id) matches Some(n) ==> (n.delay_pair matches Some(DelayPairGroup::Hex(h)) ==> r == Some(h)),
        graph.spec_node(id) matches Some(n) && n.delay_pair is None ==> r is None,
        graph.spec_node(id) is None ==> r is None,
{
    match graph.node(id) {
        Some(n) => match n.delay_pair {
            Some(DelayPairGroup::Hex(h)) => Some(h),
            None => None,
        },
        None => None,
    }
}

/// Every unit has at least one node.
pub open spec fn units_nonempty(units: Seq<LayoutUnit>) -> bool {
    forall|i: int| 0 <= i < units.len() ==> (#[trigger] units[i]).nodes@.len() >= 1
}

pub fn any_edge(graph: &LayoutGraph, a: LayoutNodeId, b: LayoutNodeId) -> (r: bool)
    ensures
        r == has_edge(graph.edge_seq(), a, b),
{
    let edges = graph.edges();
    let mut k: usize = 0;
    while k < edges.len()
        invariant
            0 <= k <= edges@.len(),
            edges@ == graph.edge_seq(),
            forall|j: int| 0 <= j < k ==> !(edges@[j].from == a && edges@[j].to == b),
        decreases edges.len() - k,
    {
        if edges[k].from == a && edges[k].to == b {
            return true;
        }
        k = k + 1;
    }
    false
}

/// Unit `to` is a dual-inlet combiner fed directly by the tail of unit `from`.
pub open spec fn spec_unit_feeds_dual_inlet(g: LayoutGraph, units: Seq<LayoutUnit>, from: int, to: int) -> bool {
    units[to].dual_inlet && has_edge(g.edge_seq(), units[from].nodes@.last(), units[to].nodes@[0])
}

pub fn unit_feeds_dual_inlet(graph: &LayoutGraph, units: &UnitLayout, from_unit_ix: usize, to_unit_ix: usize) -> (r:
    bool)
    requires
        from_unit_ix < units.units@.len(),
        to_unit_ix < units.units@.len(),
        units_nonempty(units.units@),
    ensures
        r == spec_unit_feeds_dual_inlet(*graph, units.units@, from_unit_ix as int, to_unit_ix as int),
{
    if !units.units[to_unit_ix].dual_inlet {
        return false;
    }
    let combine_id = units.units[to_unit_ix].primary();
    let tail = units.units[from_unit_ix].tail();
    any_edge(graph, tail, combine_id)
}

/// The combiner node of whichever of the two units is a dual-inlet combiner
/// (the first one if both are).
pub open spec fn spec_share_dual_inlet_combine(units: Seq<LayoutUnit>, a: int, b: int) -> Option<LayoutNodeId> {
    if units[a].dual_inlet {
        Some(units[a].nodes@[0])
    } else if units[b].dual_inlet {
        Some(units[b].nodes@[0])
    } else {
        None
    }
}

pub fn share_dual_inlet_combine(units: &UnitLayout, a_ix: usize, b_ix: usize) -> (r: Option<LayoutNodeId>)
    requires
        a_ix < units.units@.len(),
        b_ix < units.units@.len(),
        units_nonempty(units.units@),
    ensures
        r == spec_share_dual_inlet_combine(units.units@, a_ix as int, b_ix as int),
{
    let a = &units.units[a_ix];
    let b = &units.units[b_ix];
    if a.dual_inlet {
        return Some(a.primary());
    }
    if b.dual_inlet {
        return Some(b.primary());
    }
    None
}

/// Both units' tails feed the combiner that one of them is.
pub open spec fn spec_co_feed_dual_inlet(g: LayoutGraph, units: Seq<LayoutUnit>, a: int, b: int) -> bool {
    match spec_share_dual_inlet_combine(units, a, b) {
        Some(c) => has_edge(g.edge_seq(), units[a].nodes@.last(), c) && has_edge(
            g.edge_seq(),
            units[b].nodes@.last(),
            c,
        ),
        None => false,
    }
}

pub fn co_feed_dual_inlet(graph: &LayoutGraph, units: &UnitLayout, a_ix: usize, b_ix: usize) -> (r: bool)
    requires
        a_ix < units.units@.len(),
        b_ix < units.units@.len(),
        units_nonempty(units.units@),
    ensures
        r == spec_co_feed_dual_inlet(*graph, units.units@, a_ix as int, b_ix as int),
{
    let combine_id = match share_dual_inlet_combine(units, a_ix, b_ix) {
        Some(c) => c,
        None => {
            return false;
        },
    };
    let a_tail = units.units[a_ix].tail();
    let b_tail = units.units[b_ix].tail();
    let a_feeds = any_edge(graph, a_tail, combine_id);
    let b_feeds = any_edge(graph, b_tail, combine_id);
    a_feeds && b_feeds
}

/// Two units that meet at a dual-inlet combiner are exempt from the minimum
/// gap between units.
pub open spec fn spec_skip_gap_separation(g: LayoutGraph, units: Seq<LayoutUnit>, prior: int, mobile: int) -> bool {
    spec_unit_feeds_dual_inlet(g, units, prior, mobile) || spec_unit_feeds_dual_inlet(g, units, mobile, prior)
        || spec_co_feed_dual_inlet(g, units, prior, mobile)
}

pub fn skip_gap_separation(graph: &LayoutGraph, units: &UnitLayout, prior_ix: usize, mobile_ix: usize) -> (r:
    bool)
    requires
        prior_ix < units.units@.len(),
        mobile_ix < units.units@.len(),
        units_nonempty(units.units@),
    ensures
        r == spec_skip_gap_separation(*graph, units.units@, prior_ix as int, mobile_ix as int),
{
    if unit_feeds_dual_inlet(graph, units, prior_ix, mobile_ix) || unit_feeds_dual_inlet(
        graph,
        units,
        mobile_ix,
        prior_ix,
    ) {
        return true;
    }
    co_feed_dual_inlet(graph, units, prior_ix, mobile_ix)
}

/// The rank recorded for a node, 0 when there is none.
pub open spec fn rank_of(ranks: Map<LayoutNodeId, u32>, x: LayoutNodeId) -> u32 {
    if ranks.contains_key(x) {
        ranks[x]
    } else {
        0
    }
}

fn rank_lookup(ranks: &HashMap<LayoutNodeId, u32>, x: LayoutNodeId) -> (r: u32)
    ensures
        r == rank_of(ranks@, x),
{
    match ranks.get(&x) {
        Some(r) => *r,
        None => 0,
    }
}

/// Some edge into the head of unit `j` comes from a node of unit `p`.
pub open spec fn unit_fed_from(g: LayoutGraph, units: UnitLayout, j: int, p: usize) -> bool {
    let ins = incoming_edges(g.edge_seq(), units.units@[j].nodes@[0]);
    exists|m: int| 0 <= m < ins.len() && units.node_to_unit@[#[trigger] ins[m].from] == p
}

/// Another unit of the same head rank is fed from unit `p`.
pub open spec fn sibling_fed_from(
    g: LayoutGraph,
    units: UnitLayout,
    ix: int,
    ranks: Map<LayoutNodeId, u32>,
    p: usize,
) -> bool {
    exists|j: int|
        0 <= j < units.units@.len() && j != ix && rank_of(ranks, (#[trigger] units.units@[j]).nodes@[0])
            == rank_of(ranks, units.units@[ix].nodes@[0]) && unit_fed_from(g, units, j, p)
}

/// Unit `ix` has a parallel sibling: a different unit of the same head rank
/// fed from a unit that also feeds the head of `ix`.
pub open spec fn spec_has_parallel_siblings(
    g: LayoutGraph,
    units: UnitLayout,
    ix: int,
    ranks: Map<LayoutNodeId, u32>,
) -> bool {
    let ins = incoming_edges(g.edge_seq(), units.units@[ix].nodes@[0]);
    exists|k: int|
        0 <= k < ins.len() && sibling_fed_from(
            g,
            units,
            ix,
            ranks,
            units.node_to_unit@[#[trigger] ins[k].from],
        )
}

/// Every edge into the head of a unit comes from a node that has a unit.
pub open spec fn head_feeders_known(g: LayoutGraph, units: UnitLayout) -> bool {
    forall|i: int, k: int|
        0 <= i < units.units@.len() && 0 <= k < incoming_edges(
            g.edge_seq(),
            units.units@[i].nodes@[0],
        ).len() ==> units.node_to_unit@.contains_key(
            #[trigger] incoming_edges(g.edge_seq(), units.units@[i].nodes@[0])[k].from,
        )
}

fn fed_from(graph: &LayoutGraph, units: &UnitLayout, j: usize, p: usize) -> (r: bool)
    requires
        j < units.units@.len(),
        units_nonempty(units.units@),
        head_feeders_known(*graph, *units),
    ensures
        r == unit_fed_from(*graph, *units, j as int, p),
{
    let ins = graph.incoming(units.units[j].head());
    let mut m: usize = 0;
    while m < ins.len()
        invariant
            0 <= m <= ins@.len(),
            j < units.units@.len(),
            head_feeders_known(*graph, *units),
            ins@ == incoming_edges(graph.edge_seq(), units.units@[j as int].nodes@[0]),
            forall|q: int| 0 <= q < m ==> units.node_to_unit@[#[trigger] ins@[q].from] != p,
        decreases ins.len() - m,
    {
        assert(units.node_to_unit@.contains_key(ins@[m as int].from));
        if units.unit_index(ins[m].from) == p {
            return true;
        }
        m = m + 1;
    }
    false
}

/// Whether another unit at the same rank as unit `unit_ix` (ranks of head
/// nodes, 0 when missing) shares a feeding unit with it: parallel branches.
pub fn has_parallel_siblings(
    units: &UnitLayout,
    unit_ix: usize,
    graph: &LayoutGraph,
    node_ranks: &HashMap<LayoutNodeId, u32>,
) -> (r: bool)
    requires
        unit_ix < units.units@.len(),
        units_nonempty(units.units@),
        head_feeders_known(*graph, *units),
    ensures
        r == spec_has_parallel_siblings(*graph, *units, unit_ix as int, node_ranks@),
{
    let head = units.units[unit_ix].head();
    let rank = rank_lookup(node_ranks, head);
    let edges = graph.incoming(head);
    let mut k: usize = 0;
    while k < edges.len()
        invariant
            0 <= k <= edges@.len(),
            unit_ix < units.units@.len(),
            units_nonempty(units.units@),
            head_feeders_known(*graph, *units),
            head == units.units@[unit_ix as int].nodes@[0],
            rank == rank_of(node_ranks@, head),
            edges@ == incoming_edges(graph.edge_seq(), head),
            forall|q: int|
                0 <= q < k ==> !sibling_fed_from(
                    *graph,
                    *units,
                    unit_ix as int,
                    node_ranks@,
                    units.node_to_unit@[#[trigger] edges@[q].from],
                ),
        decreases edges.len() - k,
    {
        assert(units.node_to_unit@.contains_key(edges@[k as int].from));
        let p = units.unit_index(edges[k].from);
        let mut j: usize = 0;
        while j < units.units.len()
            invariant
                0 <= j <= units.units@.len(),
                0 <= k < edges@.len(),
                edges@ == incoming_edges(graph.edge_seq(), head),
                p == units.node_to_unit@[edges@[k as int].from],
                unit_ix < units.units@.len(),
                units_nonempty(units.units@),
                head_feeders_known(*graph, *units),
                head == units.units@[unit_ix as int].nodes@[0],
                rank == rank_of(node_ranks@, head),
                forall|q: int|
                    0 <= q < j ==> !(q != unit_ix && rank_of(node_ranks@, (#[trigger] units.units@[q]).nodes@[0])
                        == rank && unit_fed_from(*graph, *units, q, p)),
            decreases units.units.len() - j,
        {
            if j != unit_ix && rank_lookup(node_ranks, units.units[j].head()) == rank && fed_from(
                graph,
                units,
                j,
                p,
            ) {
                assert(sibling_fed_from(*graph, *units, unit_ix as int, node_ranks@, p)) by {
                    assert(units.units@[j as int] == units.units@[j as int]);
                }
                assert(spec_has_parallel_siblings(*graph, *units, unit_ix as int, node_ranks@)) by {
                    assert(sibling_fed_from(
                        *graph,
                        *units,
                        unit_ix as int,
                        node_ranks@,
                        units.node_to_unit@[edges@[k as int].from],
                    ));
                }
                return true;
            }
            j = j + 1;
        }
        k = k + 1;
    }
    false
}

/// Distinct `(from, to)` pairs of the edges, each where it first occurs.
pub open spec fn first_pairs(edges: Seq<LayoutEdge>) -> Seq<(LayoutNodeId, LayoutNodeId)>
    decreases edges.len(),
{
    if edges.len() == 0 {
        Seq::empty()
    } else {
        let rest = first_pairs(edges.drop_last());
        let p = (edges.last().from, edges.last().to);
        if rest.contains(p) {
            rest
        } else {
            rest.push(p)
        }
    }
}

/// The edges without repeats, as `(from, to)` ids cast to `u32`, in order of
/// first occurrence.
pub fn unique_edges(graph: &LayoutGraph) -> (r: Vec<(u32, u32)>)
    ensures
        r@ == first_pairs(graph.edge_seq()).map_values(
            |p: (LayoutNodeId, LayoutNodeId)| (p.0 as u32, p.1 as u32),
        ),
{
    let edges = graph.edges();
    let mut seen: Vec<(LayoutNodeId, LayoutNodeId)> = Vec::new();
    let mut out: Vec<(u32, u32)> = Vec::new();
    let mut i: usize = 0;
    while i < edges.len()
        invariant
            0 <= i <= edges@.len(),
            edges@ == graph.edge_seq(),
            seen@ == first_pairs(edges@.take(i as int)),
            out@ == seen@.map_values(|p: (LayoutNodeId, LayoutNodeId)| (p.0 as u32, p.1 as u32)),
        decreases edges.len() - i,
    {
        assert(edges@.take(i + 1).drop_last() =~= edges@.take(i as int));
        assert(edges@.take(i + 1).last() == edges@[i as int]);
        let key = (edges[i].from, edges[i].to);
        let mut found = false;
        let mut k: usize = 0;
        while k < seen.len()
            invariant
                0 <= k <= seen@.len(),
                found <==> exists|q: int| 0 <= q < k && seen@[q] == key,
            decreases seen.len() - k,
        {
            if seen[k].0 == key.0 && seen[k].1 == key.1 {
                found = true;
            }
            k = k + 1;
        }
        if !found {
            seen.push(key);
            out.push((key.0 as u32, key.1 as u32));
        }
        i = i + 1;
        assert(out@ =~= seen@.map_values(|p: (LayoutNodeId, LayoutNodeId)| (p.0 as u32, p.1 as u32)));
    }
    assert(edges@.take(i as int) =~= edges@);
    out
}

} // verus!
