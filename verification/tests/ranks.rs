use pd_patch::kinds::NodeKind;
use pd_patch::layout_graph::{LayoutEdge, LayoutGraph, LayoutNode};
use pd_patch::ranks::topo_sort_nodes;
use pd_patch::unit_ranks::{
    align_combine_feeder_ranks, assign_unit_ranks, normalize_unit_ranks, unit_ranks_to_node_ranks,
};
use pd_patch::units::{build_unit_layout, FanInPair, LayoutUnit, UnitLayout};
use std::collections::HashMap;

fn chain() -> LayoutGraph {
    let mut g = LayoutGraph::new();
    let i = g.add_node(LayoutNode::new(0, NodeKind::Source, 0, 1));
    let p1 = g.add_node(LayoutNode::new(1, NodeKind::Param, 1, 1));
    let p2 = g.add_node(LayoutNode::new(2, NodeKind::Param, 1, 1));
    let o = g.add_node(LayoutNode::new(3, NodeKind::Sink, 1, 0));
    g.add_edge(LayoutEdge::new(i, 0, p1, 0));
    g.add_edge(LayoutEdge::new(p1, 0, p2, 0));
    g.add_edge(LayoutEdge::new(p2, 0, o, 0));
    g
}

#[test]
fn passthrough_chain_ranked_as_single_unit() {
    let g = chain();
    let units = build_unit_layout(&g);
    let ranks = assign_unit_ranks(&g, &units, false);
    assert_eq!(units.units.len(), 3);
    assert_eq!(ranks.len(), 3);
    assert_eq!(ranks.iter().copied().max(), Some(2));
    assert_eq!(ranks[units.unit_index(0)], 0);
    assert_eq!(ranks[units.unit_index(1)], 1);
    assert_eq!(ranks[units.unit_index(3)], 2);
}

#[test]
fn ranks_are_longest_paths_and_sinks_can_be_pinned() {
    // 0 -> 1 -> 2 -> 3, and 0 -> 4 (sink) directly.
    let mut g = LayoutGraph::new();
    g.add_node(LayoutNode::new(0, NodeKind::Source, 0, 2));
    g.add_node(LayoutNode::new(1, NodeKind::Default, 1, 2));
    g.add_node(LayoutNode::new(2, NodeKind::Default, 2, 2));
    g.add_node(LayoutNode::new(3, NodeKind::Sink, 2, 0));
    g.add_node(LayoutNode::new(4, NodeKind::Sink, 1, 0));
    g.add_edge(LayoutEdge::new(0, 0, 1, 0));
    g.add_edge(LayoutEdge::new(1, 0, 2, 0));
    g.add_edge(LayoutEdge::new(2, 0, 3, 0));
    g.add_edge(LayoutEdge::new(0, 1, 4, 0));
    g.add_edge(LayoutEdge::new(1, 1, 3, 1));
    let units = build_unit_layout(&g);
    let free = assign_unit_ranks(&g, &units, false);
    let r = |ranks: &Vec<u32>, id: usize| ranks[units.unit_index(id)];
    assert_eq!(r(&free, 0), 0);
    assert_eq!(r(&free, 1), 1);
    assert_eq!(r(&free, 2), 2);
    assert_eq!(r(&free, 3), 3);
    assert_eq!(r(&free, 4), 1);
    let pinned = assign_unit_ranks(&g, &units, true);
    assert_eq!(r(&pinned, 4), 3);
    assert_eq!(r(&pinned, 3), 3);
    assert_eq!(r(&pinned, 0), 0);
}

#[test]
fn cyclic_unit_graph_still_gets_ranks() {
    let mut g = LayoutGraph::new();
    g.add_node(LayoutNode::new(0, NodeKind::Default, 2, 2));
    g.add_node(LayoutNode::new(1, NodeKind::Default, 2, 2));
    g.add_edge(LayoutEdge::new(0, 0, 1, 0));
    g.add_edge(LayoutEdge::new(1, 0, 0, 0));
    let units = build_unit_layout(&g);
    let ranks = assign_unit_ranks(&g, &units, false);
    // Visited in index order: unit 0 raises unit 1 to 1, unit 1 raises unit 0 to 2;
    // the smallest rank (1) is then subtracted.
    assert_eq!(ranks, vec![1, 0]);
}

#[test]
fn topo_sort_orders_edges_and_falls_back_to_ids() {
    let mut g = LayoutGraph::new();
    g.add_node(LayoutNode::new(2, NodeKind::Default, 1, 1));
    g.add_node(LayoutNode::new(7, NodeKind::Default, 1, 1));
    g.add_node(LayoutNode::new(5, NodeKind::Default, 1, 1));
    g.add_edge(LayoutEdge::new(7, 0, 2, 0));
    g.add_edge(LayoutEdge::new(2, 0, 5, 0));
    let order = topo_sort_nodes(&g);
    assert_eq!(order.len(), 3);
    let pos = |x: usize| order.iter().position(|&y| y == x).unwrap();
    assert!(pos(7) < pos(2));
    assert!(pos(2) < pos(5));

    g.add_edge(LayoutEdge::new(5, 0, 7, 0));
    assert_eq!(topo_sort_nodes(&g), vec![2, 5, 7]);
}

#[test]
fn normalize_subtracts_minimum() {
    let mut r = vec![3u32, 5, 4];
    normalize_unit_ranks(&mut r);
    assert_eq!(r, vec![0, 2, 1]);
    let mut empty: Vec<u32> = Vec::new();
    normalize_unit_ranks(&mut empty);
    assert!(empty.is_empty());
}

fn layout_of(units: Vec<LayoutUnit>, pairs: Vec<FanInPair>) -> UnitLayout {
    let mut node_to_unit = HashMap::new();
    for (ix, u) in units.iter().enumerate() {
        for &id in &u.nodes {
            node_to_unit.insert(id, ix);
        }
    }
    UnitLayout { units, node_to_unit, fanin_pairs: pairs }
}

#[test]
fn feeders_move_one_rank_above_combiner() {
    let units = layout_of(
        vec![
            LayoutUnit::singleton(0, false),
            LayoutUnit::singleton(1, false),
            LayoutUnit::singleton(2, true),
            LayoutUnit::singleton(3, true),
        ],
        vec![
            FanInPair { left: 0, right: 1, combine: 2 },
            FanInPair { left: 2, right: 1, combine: 3 },
        ],
    );
    let mut ranks = vec![0u32, 0, 4, 0];
    align_combine_feeder_ranks(&units, &mut ranks);
    // First pair: 0 and 1 go to 3. Second pair: combiner rank 0 saturates at 0.
    assert_eq!(ranks, vec![3, 0, 0, 0]);
}

#[test]
fn node_ranks_follow_their_unit() {
    let units = layout_of(
        vec![LayoutUnit::column(vec![10, 11]), LayoutUnit::singleton(12, false), LayoutUnit::singleton(13, false)],
        Vec::new(),
    );
    let ranks = unit_ranks_to_node_ranks(&units, &[4, 6]);
    assert_eq!(ranks.len(), 4);
    assert_eq!(ranks[&10], 4);
    assert_eq!(ranks[&11], 4);
    assert_eq!(ranks[&12], 6);
    assert_eq!(ranks[&13], 0);
}
