use pd_patch::kinds::NodeKind;
use pd_patch::layout_graph::{LayoutEdge, LayoutGraph, LayoutNode};
use pd_patch::topology::{
    assign_spine_root_columns, co_feed_dual_inlet, has_parallel_siblings, is_combiner_only_feeder,
    is_spine_root, parent_is_receive, share_dual_inlet_combine, signal_hex, skip_gap_separation,
    unique_edges, unit_feeds_dual_inlet,
};
use pd_patch::units::build_unit_layout;
use std::collections::{HashMap, HashSet};

fn fan() -> LayoutGraph {
    // [receive] 0 -> 1, source 3 -> 4 twice, 5 and 6 feed combine 7.
    let mut g = LayoutGraph::new();
    g.add_node(LayoutNode::new(0, NodeKind::Receive, 0, 1));
    g.add_node(LayoutNode::new(1, NodeKind::Default, 1, 2));
    g.add_node(LayoutNode::new(3, NodeKind::Source, 0, 2).with_delay_pair(0x2a));
    g.add_node(LayoutNode::new(4, NodeKind::Default, 2, 2));
    g.add_node(LayoutNode::new(5, NodeKind::Default, 2, 2));
    g.add_node(LayoutNode::new(6, NodeKind::Default, 2, 2));
    g.add_node(LayoutNode::new(7, NodeKind::Combine, 2, 1));
    g.add_edge(LayoutEdge::new(0, 0, 1, 0));
    g.add_edge(LayoutEdge::new(3, 0, 4, 0));
    g.add_edge(LayoutEdge::new(5, 0, 7, 0));
    g.add_edge(LayoutEdge::new(6, 0, 7, 1));
    g.add_edge(LayoutEdge::new(3, 1, 4, 0));
    g
}

#[test]
fn spine_roots_and_columns() {
    let g = fan();
    assert!(parent_is_receive(&g, 0));
    assert!(!parent_is_receive(&g, 1));
    assert!(!parent_is_receive(&g, 99));
    assert!(!is_spine_root(&g, 0));
    assert!(is_spine_root(&g, 1));
    assert!(is_spine_root(&g, 3));
    assert!(!is_spine_root(&g, 4));
    assert!(!is_spine_root(&g, 7));
    assert!(!is_spine_root(&g, 99));
    let component: HashSet<usize> = [0usize, 1, 3, 4, 5, 6, 7].into_iter().collect();
    let cols = assign_spine_root_columns(&g, &component);
    let expected: HashMap<usize, u32> = [(1usize, 0u32), (3, 1), (5, 2), (6, 3)].into_iter().collect();
    assert_eq!(cols, expected);
}

#[test]
fn combiner_feeders_and_signal_ids() {
    let g = fan();
    assert!(is_combiner_only_feeder(&g, 5));
    assert!(!is_combiner_only_feeder(&g, 3));
    assert!(!is_combiner_only_feeder(&g, 7));
    assert_eq!(signal_hex(&g, 3), Some(0x2a));
    assert_eq!(signal_hex(&g, 4), None);
    assert_eq!(signal_hex(&g, 99), None);
}

#[test]
fn unique_edges_keep_first_occurrence() {
    let g = fan();
    assert_eq!(unique_edges(&g), vec![(0, 1), (3, 4), (5, 7), (6, 7)]);
}

#[test]
fn dual_inlet_neighbours() {
    let g = fan();
    let units = build_unit_layout(&g);
    let u5 = units.unit_index(5);
    let u6 = units.unit_index(6);
    let u7 = units.unit_index(7);
    let u3 = units.unit_index(3);
    assert!(unit_feeds_dual_inlet(&g, &units, u5, u7));
    assert!(!unit_feeds_dual_inlet(&g, &units, u7, u5));
    assert!(!unit_feeds_dual_inlet(&g, &units, u3, u7));
    assert_eq!(share_dual_inlet_combine(&units, u5, u7), Some(7));
    assert_eq!(share_dual_inlet_combine(&units, u5, u6), None);
    assert!(!co_feed_dual_inlet(&g, &units, u5, u6));
    // The combiner's own tail would have to feed it as well.
    assert!(!co_feed_dual_inlet(&g, &units, u5, u7));
    assert!(skip_gap_separation(&g, &units, u5, u7));
    assert!(skip_gap_separation(&g, &units, u7, u6));
    assert!(!skip_gap_separation(&g, &units, u5, u6));
}

#[test]
fn parallel_siblings_share_a_parent_at_the_same_rank() {
    let mut g = LayoutGraph::new();
    g.add_node(LayoutNode::new(0, NodeKind::Source, 0, 2));
    g.add_node(LayoutNode::new(1, NodeKind::Default, 2, 2));
    g.add_node(LayoutNode::new(2, NodeKind::Default, 2, 2));
    g.add_node(LayoutNode::new(3, NodeKind::Default, 2, 2));
    g.add_edge(LayoutEdge::new(0, 0, 1, 0));
    g.add_edge(LayoutEdge::new(0, 1, 2, 0));
    g.add_edge(LayoutEdge::new(2, 0, 3, 0));
    let units = build_unit_layout(&g);
    let mut node_ranks = HashMap::new();
    node_ranks.insert(0usize, 0u32);
    node_ranks.insert(1, 1);
    node_ranks.insert(2, 1);
    node_ranks.insert(3, 2);
    assert!(has_parallel_siblings(&units, units.unit_index(1), &g, &node_ranks));
    assert!(has_parallel_siblings(&units, units.unit_index(2), &g, &node_ranks));
    assert!(!has_parallel_siblings(&units, units.unit_index(3), &g, &node_ranks));
    assert!(!has_parallel_siblings(&units, units.unit_index(0), &g, &node_ranks));
    node_ranks.insert(2, 5);
    assert!(!has_parallel_siblings(&units, units.unit_index(1), &g, &node_ranks));
}
