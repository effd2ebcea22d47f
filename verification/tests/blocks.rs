use pd_patch::kinds::NodeKind;
use pd_patch::layout_graph::{LayoutEdge, LayoutGraph, LayoutNode};
use pd_patch::units::{build_unit_layout, FanInPair, LayoutUnit};

#[test]
fn detects_passthrough_chain() {
    let mut g = LayoutGraph::new();
    let i = g.add_node(LayoutNode::new(0, NodeKind::Source, 0, 1));
    let p1 = g.add_node(LayoutNode::new(1, NodeKind::Param, 1, 1));
    let p2 = g.add_node(LayoutNode::new(2, NodeKind::Param, 1, 1));
    let o = g.add_node(LayoutNode::new(3, NodeKind::Sink, 1, 0));
    g.add_edge(LayoutEdge::new(i, 0, p1, 0));
    g.add_edge(LayoutEdge::new(p1, 0, p2, 0));
    g.add_edge(LayoutEdge::new(p2, 0, o, 0));

    let units = build_unit_layout(&g);

    assert_eq!(units.units.len(), 3);
    assert!(units.unit(p1).is_column());
    assert_eq!(units.unit(p1).nodes, vec![p1, p2]);
    assert!(!units.unit(i).is_column());
}

#[test]
fn marks_combine_as_dual_inlet() {
    let mut g = LayoutGraph::new();
    let c = g.add_node(LayoutNode::new(0, NodeKind::Combine, 2, 1));
    let units = build_unit_layout(&g);
    assert!(units.unit(c).is_dual_inlet());
}

#[test]
fn finds_combine_fanin_pair() {
    let mut g = LayoutGraph::new();
    let p0 = g.add_node(LayoutNode::new(0, NodeKind::Param, 1, 1));
    let p1 = g.add_node(LayoutNode::new(1, NodeKind::Param, 1, 1));
    let combine = g.add_node(LayoutNode::new(2, NodeKind::Combine, 2, 1));
    g.add_edge(LayoutEdge::new(p0, 0, combine, 0));
    g.add_edge(LayoutEdge::new(p1, 0, combine, 1));

    let units = build_unit_layout(&g);
    assert_eq!(units.fanin_pairs.len(), 1);
    assert_eq!(units.fanin_pairs[0].combine, units.unit_index(combine));
}

#[test]
fn columns_come_first_then_singles_in_id_order() {
    let mut g = LayoutGraph::new();
    g.add_node(LayoutNode::new(5, NodeKind::Source, 0, 1));
    g.add_node(LayoutNode::new(1, NodeKind::Param, 1, 1));
    g.add_node(LayoutNode::new(2, NodeKind::Sink, 1, 0));
    g.add_edge(LayoutEdge::new(5, 0, 1, 0));
    g.add_edge(LayoutEdge::new(1, 0, 2, 0));
    let units = build_unit_layout(&g);
    assert_eq!(units.units.len(), 3);
    assert!(units.units[0].is_column());
    assert_eq!(units.units[0].nodes, vec![1]);
    assert_eq!(units.units[1].nodes, vec![2]);
    assert_eq!(units.units[2].nodes, vec![5]);
    assert_eq!(units.unit_index(5), 2);
    assert!(units.fanin_pair_for(0).is_none());
}

#[test]
fn unit_accessors() {
    let u = LayoutUnit::column(vec![4, 7, 9]);
    assert_eq!(u.primary(), 4);
    assert_eq!(u.head(), 4);
    assert_eq!(u.tail(), 9);
    assert!(u.is_block());
    assert!(!u.is_dual_inlet());
    let s = LayoutUnit::singleton(3, true);
    assert!(!s.is_column());
    assert!(!s.is_block());
    assert!(s.is_dual_inlet());
    let one = LayoutUnit::column(vec![8]);
    assert!(one.is_column());
    assert!(!one.is_block());

    let mut g = LayoutGraph::new();
    let a = g.add_node(LayoutNode::new(0, NodeKind::Param, 1, 1));
    let b = g.add_node(LayoutNode::new(1, NodeKind::Param, 1, 1));
    let c = g.add_node(LayoutNode::new(2, NodeKind::Combine, 2, 1));
    g.add_edge(LayoutEdge::new(b, 0, c, 1));
    g.add_edge(LayoutEdge::new(a, 0, c, 0));
    let units = build_unit_layout(&g);
    let pair = units.fanin_pairs[0];
    assert_eq!(
        pair,
        FanInPair { left: units.unit_index(a), right: units.unit_index(b), combine: units.unit_index(c) }
    );
    assert_eq!(units.fanin_pair_left(pair.left), Some(&pair));
    assert_eq!(units.fanin_pair_left(pair.right), None);
    assert_eq!(units.fanin_pair_for(pair.combine), Some(&pair));
}

#[test]
fn units_partition_the_nodes() {
    let mut g = LayoutGraph::new();
    for (id, kind, i, o) in [
        (0usize, NodeKind::Source, 0, 1),
        (1, NodeKind::Param, 1, 1),
        (2, NodeKind::Param, 1, 1),
        (3, NodeKind::Combine, 2, 1),
        (4, NodeKind::Param, 1, 1),
        (5, NodeKind::Sink, 1, 0),
        (6, NodeKind::Comment, 0, 0),
    ] {
        g.add_node(LayoutNode::new(id, kind, i, o));
    }
    g.add_edge(LayoutEdge::new(0, 0, 1, 0));
    g.add_edge(LayoutEdge::new(1, 0, 2, 0));
    g.add_edge(LayoutEdge::new(2, 0, 3, 0));
    g.add_edge(LayoutEdge::new(4, 0, 3, 1));
    g.add_edge(LayoutEdge::new(3, 0, 5, 0));
    let units = build_unit_layout(&g);
    for id in 0..7usize {
        let holders: Vec<usize> =
            (0..units.units.len()).filter(|&k| units.units[k].nodes.contains(&id)).collect();
        assert_eq!(holders, vec![units.unit_index(id)], "node {id} lies in exactly one unit");
    }
    for u in &units.units {
        assert!(!u.nodes.is_empty());
        if !u.column {
            assert_eq!(u.nodes.len(), 1);
        }
    }
}
