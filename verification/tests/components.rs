use pd_patch::components::{edges_join_nodes, find_layout_components};
use pd_patch::kinds::NodeKind;
use pd_patch::layout_graph::{LayoutEdge, LayoutGraph, LayoutNode};

#[test]
fn disconnected_chains_are_separate_components() {
    let mut g = LayoutGraph::new();
    for id in [10usize, 11, 12, 20, 21, 30] {
        g.add_node(LayoutNode::new(id, NodeKind::Default, 1, 1));
    }
    g.add_edge(LayoutEdge::new(11, 0, 10, 0));
    g.add_edge(LayoutEdge::new(11, 0, 12, 0));
    g.add_edge(LayoutEdge::new(21, 0, 20, 0));
    assert_eq!(
        find_layout_components(&g),
        vec![vec![10, 11, 12], vec![20, 21], vec![30]]
    );
}

#[test]
fn shared_delay_id_joins_components() {
    let mut g = LayoutGraph::new();
    g.add_node(LayoutNode::new(1, NodeKind::DelayOut, 1, 0).with_delay_pair(7));
    g.add_node(LayoutNode::new(2, NodeKind::Default, 1, 1));
    g.add_node(LayoutNode::new(3, NodeKind::Default, 1, 1));
    g.add_node(LayoutNode::new(4, NodeKind::DelayIn, 0, 1).with_delay_pair(7));
    g.add_node(LayoutNode::new(5, NodeKind::Default, 1, 1));
    g.add_node(LayoutNode::new(6, NodeKind::Send, 1, 0).with_delay_pair(9));
    g.add_edge(LayoutEdge::new(2, 0, 1, 0));
    g.add_edge(LayoutEdge::new(4, 0, 5, 0));
    assert_eq!(
        find_layout_components(&g),
        vec![vec![1, 2, 4, 5], vec![3], vec![6]]
    );
}

#[test]
fn empty_graph_has_no_components() {
    let g = LayoutGraph::new();
    assert!(find_layout_components(&g).is_empty());
}

#[test]
fn edges_must_join_existing_nodes() {
    let mut g = LayoutGraph::new();
    g.add_node(LayoutNode::new(1, NodeKind::Default, 1, 1));
    g.add_node(LayoutNode::new(2, NodeKind::Default, 1, 1));
    assert!(edges_join_nodes(&g));
    g.add_edge(LayoutEdge::new(1, 0, 2, 0));
    assert!(edges_join_nodes(&g));
    g.add_edge(LayoutEdge::new(2, 0, 3, 0));
    assert!(!edges_join_nodes(&g));
}
