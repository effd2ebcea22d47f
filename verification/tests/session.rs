use pd_patch::editing::{ObjectInfo, Wire};
use pd_patch::editor::PortHighlight;
use pd_patch::session::{
    alt_drag_node_kind, copy_connections, copy_delay_pairs, default_focus, drop_connections,
    ensure_focus,
    invalid_port_edges, node_behavior, node_click, NodeBehavior, NodeClick, NodeLayer,
    nav_horizontal, nodes_to_duplicate, nodes_to_remove, plan_hex_remap, port_click,
    port_highlight, remap_signal_hex, rewire_pending, wire_handle_groups, AltDragNodeKind,
    PendingWire, PortClick, WireEnd,
};
use std::collections::HashSet;

fn wire(id: usize, from: usize, from_port: usize, to: usize, to_port: usize) -> Wire {
    Wire { id, from, from_port, to, to_port }
}

fn plain() -> ObjectInfo {
    ObjectInfo { comment: false, send: false, receive: false, inlets: 1, outlets: 1, signal_hex: None }
}

#[test]
fn click_without_pending_starts_at_outlet_first() {
    assert_eq!(
        port_click(None, Some((1, 0)), Some((2, 1))),
        PortClick::Start(PendingWire { node: 1, port: 0, end: WireEnd::Outlet })
    );
    assert_eq!(
        port_click(None, None, Some((2, 1))),
        PortClick::Start(PendingWire { node: 2, port: 1, end: WireEnd::Inlet })
    );
    assert_eq!(port_click(None, None, None), PortClick::Ignore);
}

#[test]
fn click_with_pending_connects_opposite_ends() {
    let from_outlet = PendingWire { node: 1, port: 0, end: WireEnd::Outlet };
    assert_eq!(
        port_click(Some(from_outlet), Some((5, 0)), Some((3, 1))),
        PortClick::Connect { from: 1, from_port: 0, to: 3, to_port: 1 }
    );
    assert_eq!(
        port_click(Some(from_outlet), Some((5, 2)), None),
        PortClick::Start(PendingWire { node: 5, port: 2, end: WireEnd::Outlet })
    );
    let from_inlet = PendingWire { node: 4, port: 1, end: WireEnd::Inlet };
    assert_eq!(
        port_click(Some(from_inlet), Some((2, 0)), Some((9, 0))),
        PortClick::Connect { from: 2, from_port: 0, to: 4, to_port: 1 }
    );
    assert_eq!(
        port_click(Some(from_inlet), None, Some((9, 0))),
        PortClick::Start(PendingWire { node: 9, port: 0, end: WireEnd::Inlet })
    );
    assert_eq!(port_click(Some(from_inlet), None, None), PortClick::Ignore);
}

#[test]
fn highlight_order_of_precedence() {
    let pending = Some(PendingWire { node: 1, port: 0, end: WireEnd::Outlet });
    assert_eq!(port_highlight(Some(7), None, None, 7, 0, WireEnd::Inlet, false), PortHighlight::ConnectTarget);
    assert_eq!(port_highlight(Some(7), None, None, 7, 1, WireEnd::Inlet, false), PortHighlight::Idle);
    assert_eq!(port_highlight(None, pending, None, 1, 0, WireEnd::Outlet, true), PortHighlight::Connecting);
    assert_eq!(
        port_highlight(None, pending, Some((2, 1, WireEnd::Inlet)), 2, 1, WireEnd::Inlet, false),
        PortHighlight::ConnectTarget
    );
    assert_eq!(
        port_highlight(None, None, Some((2, 1, WireEnd::Inlet)), 2, 1, WireEnd::Inlet, false),
        PortHighlight::Idle
    );
    assert_eq!(port_highlight(None, pending, None, 2, 1, WireEnd::Inlet, true), PortHighlight::Hovered);
}

#[test]
fn picking_up_cables_keeps_their_other_ends_pending() {
    let ws = [wire(10, 1, 0, 3, 1), wire(11, 2, 0, 3, 1)];
    assert_eq!(
        rewire_pending(&ws, WireEnd::Inlet),
        vec![
            PendingWire { node: 1, port: 0, end: WireEnd::Outlet },
            PendingWire { node: 2, port: 0, end: WireEnd::Outlet },
        ]
    );
    assert_eq!(
        rewire_pending(&ws, WireEnd::Outlet),
        vec![
            PendingWire { node: 3, port: 1, end: WireEnd::Inlet },
            PendingWire { node: 3, port: 1, end: WireEnd::Inlet },
        ]
    );
}

#[test]
fn horizontal_navigation_stays_within_row() {
    let rows = vec![vec![4, 5, 6], vec![7]];
    assert_eq!(nav_horizontal(&rows, 0, 1, 1), Some(6));
    assert_eq!(nav_horizontal(&rows, 0, 1, -1), Some(4));
    assert_eq!(nav_horizontal(&rows, 0, 0, -1), None);
    assert_eq!(nav_horizontal(&rows, 0, 2, 1), None);
    assert_eq!(nav_horizontal(&rows, 2, 0, 0), None);
}

#[test]
fn duplicate_whole_selection_only_when_dragged_is_part_of_it() {
    assert_eq!(nodes_to_duplicate(3, true, &[1, 3]), vec![1, 3]);
    assert_eq!(nodes_to_duplicate(3, true, &[3]), vec![3]);
    assert_eq!(nodes_to_duplicate(3, false, &[1, 2]), vec![3]);
}

#[test]
fn alt_drag_kinds() {
    let originals = [1usize, 2];
    let copies = [5usize, 6];
    assert_eq!(alt_drag_node_kind(1, Some((&originals, &copies))), AltDragNodeKind::Original);
    assert_eq!(alt_drag_node_kind(6, Some((&originals, &copies))), AltDragNodeKind::Copy);
    assert_eq!(alt_drag_node_kind(9, Some((&originals, &copies))), AltDragNodeKind::Uninvolved);
    assert_eq!(alt_drag_node_kind(1, None), AltDragNodeKind::Uninvolved);
}

#[test]
fn cables_beyond_new_port_counts_are_dropped() {
    let ws = [wire(0, 1, 0, 2, 0), wire(1, 1, 1, 2, 0), wire(2, 0, 0, 1, 2), wire(3, 0, 0, 1, 0)];
    assert_eq!(invalid_port_edges(&ws, 1, 1, 1), vec![1, 2]);
    assert_eq!(invalid_port_edges(&ws, 1, 3, 2), Vec::<usize>::new());
}

#[test]
fn copies_keep_internal_cables_once() {
    let ws = [wire(0, 1, 0, 2, 0), wire(1, 2, 0, 3, 0), wire(2, 1, 0, 2, 0), wire(3, 2, 0, 1, 1)];
    let id_map = [(1usize, 11usize), (2, 12)];
    assert_eq!(copy_connections(&ws, &id_map), vec![(11, 0, 12, 0), (12, 0, 11, 1)]);
    let pairs = [(1usize, 2usize), (2, 1), (2, 3)];
    assert_eq!(copy_delay_pairs(&pairs, &id_map), vec![(11, 12), (12, 11)]);
}

#[test]
fn signal_ids_are_remapped_per_distinct_id() {
    let used: HashSet<u8> = [3u8, 9].into_iter().collect();
    let plan = plan_hex_remap(&[Some(3), None, Some(9), Some(3)], &used);
    assert_eq!(plan.len(), 2);
    assert_eq!(plan[0].0, 3);
    assert_eq!(plan[1].0, 9);
    assert!(!used.contains(&plan[0].1));
    assert!(!used.contains(&plan[1].1));
    assert_eq!(remap_signal_hex(Some(3), &plan), Some(plan[0].1));
    assert_eq!(remap_signal_hex(Some(4), &plan), Some(4));
    assert_eq!(remap_signal_hex(None, &plan), None);
}

#[test]
fn handle_groups_collect_cables_by_port() {
    let ws = [wire(7, 1, 0, 3, 1), wire(2, 2, 0, 3, 1), wire(5, 1, 0, 4, 0)];
    let groups = wire_handle_groups(&ws);
    let keys: Vec<(usize, usize, WireEnd, Vec<usize>)> =
        groups.into_iter().map(|g| (g.node, g.port, g.end, g.edge_ids)).collect();
    assert_eq!(
        keys,
        vec![
            (1, 0, WireEnd::Outlet, vec![5, 7]),
            (3, 1, WireEnd::Inlet, vec![2, 7]),
            (2, 0, WireEnd::Outlet, vec![2]),
            (4, 0, WireEnd::Inlet, vec![5]),
        ]
    );
}

#[test]
fn deleting_a_send_takes_its_receives_and_partner_first() {
    let send = ObjectInfo { send: true, signal_hex: Some(4), ..plain() };
    let recv = ObjectInfo { receive: true, signal_hex: Some(4), inlets: 0, ..plain() };
    let other_recv = ObjectInfo { receive: true, signal_hex: Some(5), inlets: 0, ..plain() };
    let nodes = [(0usize, send), (1, recv), (2, other_recv), (3, recv), (4, plain()), (5, plain())];
    assert_eq!(nodes_to_remove(&nodes, 0, None), vec![1, 3, 0]);
    assert_eq!(nodes_to_remove(&nodes, 4, Some(5)), vec![5, 4]);
    assert_eq!(nodes_to_remove(&nodes, 4, Some(4)), vec![4]);
    assert_eq!(nodes_to_remove(&nodes, 9, Some(4)), Vec::<usize>::new());
}

#[test]
fn default_focus_skips_unfocusable_nodes() {
    let rows = vec![vec![0, 1], vec![2, 3]];
    assert_eq!(default_focus(&rows, &[false, false, true, true]), Some(2));
    assert_eq!(default_focus(&rows, &[false, true]), Some(1));
    assert_eq!(default_focus(&rows, &[false; 4]), None);
    assert_eq!(default_focus(&[], &[true]), None);
}

#[test]
fn dropping_rewired_cables_moves_their_dragged_end() {
    let ws = [wire(1, 1, 0, 3, 1), wire(2, 2, 0, 3, 1)];
    assert_eq!(
        drop_connections(Some((WireEnd::Inlet, &ws)), None, Some((9, 0)), Some((4, 0))),
        Some(vec![(1, 0, 4, 0), (2, 0, 4, 0)])
    );
    assert_eq!(
        drop_connections(Some((WireEnd::Outlet, &ws)), None, Some((8, 1)), Some((4, 0))),
        Some(vec![(8, 1, 3, 1), (8, 1, 3, 1)])
    );
    assert_eq!(drop_connections(Some((WireEnd::Inlet, &ws)), None, Some((9, 0)), None), None);
}

#[test]
fn dropping_a_pending_cable_completes_it_on_the_opposite_port() {
    let from_outlet = PendingWire { node: 1, port: 0, end: WireEnd::Outlet };
    assert_eq!(drop_connections(None, Some(from_outlet), Some((5, 0)), Some((2, 1))), Some(vec![(1, 0, 2, 1)]));
    assert_eq!(drop_connections(None, Some(from_outlet), Some((5, 0)), None), None);
    let from_inlet = PendingWire { node: 2, port: 1, end: WireEnd::Inlet };
    assert_eq!(drop_connections(None, Some(from_inlet), Some((5, 0)), None), Some(vec![(5, 0, 2, 1)]));
    assert_eq!(drop_connections(None, None, Some((5, 0)), Some((2, 1))), None);
}

#[test]
fn clicking_a_selected_node_edits_it() {
    assert_eq!(node_click(true, false, false, false, None, true, false, false), NodeClick::StartEditing);
    assert_eq!(node_click(true, false, false, false, Some(false), true, false, false), NodeClick::SelectOnly);
    assert_eq!(node_click(true, false, false, false, None, false, false, false), NodeClick::SelectOnly);
    assert_eq!(node_click(true, false, false, false, None, true, true, false), NodeClick::ToggleSelection);
    assert_eq!(node_click(true, false, false, false, None, true, false, true), NodeClick::Nothing);
    assert_eq!(node_click(true, true, false, false, None, true, false, false), NodeClick::Nothing);
    assert_eq!(node_click(true, false, false, true, None, true, false, false), NodeClick::Nothing);
    assert_eq!(node_click(false, false, false, false, None, true, false, false), NodeClick::Nothing);
}

#[test]
fn comments_and_alt_drag_nodes_stay_put() {
    assert_eq!(
        node_behavior(false, false, false, true, AltDragNodeKind::Uninvolved),
        NodeBehavior { movable: true, resizable: true, layer: NodeLayer::Middle }
    );
    assert_eq!(
        node_behavior(true, false, false, true, AltDragNodeKind::Uninvolved),
        NodeBehavior { movable: false, resizable: false, layer: NodeLayer::Background }
    );
    assert_eq!(
        node_behavior(false, true, true, true, AltDragNodeKind::Uninvolved),
        NodeBehavior { movable: true, resizable: false, layer: NodeLayer::Middle }
    );
    assert_eq!(
        node_behavior(false, false, false, false, AltDragNodeKind::Copy),
        NodeBehavior { movable: false, resizable: false, layer: NodeLayer::Foreground }
    );
}

#[test]
fn focus_stays_while_it_can() {
    let rows = vec![vec![0, 1], vec![2]];
    let flags = [true, true, false];
    assert_eq!(ensure_focus(Some(1), true, &rows, &flags), Some(1));
    assert_eq!(ensure_focus(Some(1), false, &rows, &flags), Some(0));
    assert_eq!(ensure_focus(Some(2), true, &rows, &flags), Some(0));
    assert_eq!(ensure_focus(None, true, &rows, &flags), Some(0));
    assert_eq!(ensure_focus(Some(7), true, &rows, &flags), Some(0));
}
