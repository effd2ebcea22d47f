use pd_patch::editing::{
    collect_node_edges, connect_plan, find_edge_between_ports,
    find_edge_from_outlet, find_edge_to_inlet, node_shift_drag_eligible,
    node_shift_drag_insert_eligible, shift_drag_bridge_plan, splice_plan, used_signal_hex_ids, AutoWire,
    ConnectPlan, EdgeData, ObjectInfo, Wire,
};

fn info(inlets: usize, outlets: usize) -> ObjectInfo {
    ObjectInfo { comment: false, send: false, receive: false, inlets, outlets, signal_hex: None }
}

/// A minimal editor: objects, cables in edge order, the next edge id, and
/// the nodes marked at drag start as insertable on a cable.
struct TestEditor {
    infos: Vec<ObjectInfo>,
    wires: Vec<Wire>,
    next_edge: usize,
    shift_drag_eligible: Vec<usize>,
}

impl TestEditor {
    fn new() -> Self {
        TestEditor { infos: Vec::new(), wires: Vec::new(), next_edge: 0, shift_drag_eligible: Vec::new() }
    }
    fn mark_shift_drag_eligible(&mut self, node: usize) {
        self.shift_drag_eligible.push(node);
    }
    /// Drops a shift-dragged node on the cable under it (`cable`, found from
    /// the node's position), if it was marked when the drag started.
    fn try_shift_drag_insert_on_wire(&mut self, node: usize, cable: Option<usize>) {
        if !self.shift_drag_eligible.contains(&node) {
            return;
        }
        if let Some(edge) = cable {
            self.insert_node_on_edge(node, edge);
        }
    }
    fn add_object(&mut self, info: ObjectInfo) -> usize {
        self.infos.push(info);
        self.infos.len() - 1
    }
    fn add_edge(&mut self, from: usize, from_port: usize, to: usize, to_port: usize) -> usize {
        let id = self.next_edge;
        self.next_edge += 1;
        self.wires.push(Wire { id, from, from_port, to, to_port });
        id
    }
    fn remove_edge(&mut self, id: usize) {
        self.wires.retain(|w| w.id != id);
    }
    fn force_connect(&mut self, from: usize, from_port: usize, to: usize, to_port: usize) {
        if find_edge_between_ports(&self.wires, from, from_port, to, to_port).is_none() {
            self.add_edge(from, from_port, to, to_port);
        }
    }
    fn connect_ports_unchecked(&mut self, from: usize, out: usize, to: usize, inp: usize) {
        let auto = AutoWire { combine: false, send_receive: false, delay: false };
        let plan = connect_plan(&self.wires, from, out, to, inp, auto, info(0, 0), false);
        if plan == ConnectPlan::Connect {
            self.add_edge(from, out, to, inp);
        }
    }
    fn connect_ports(&mut self, from: usize, out: usize, to: usize, inp: usize) {
        if find_edge_between_ports(&self.wires, from, out, to, inp).is_some() {
            return;
        }
        self.connect_ports_unchecked(from, out, to, inp);
    }
    fn shift_drag_bridge_nodes(&mut self, nodes: &[usize]) {
        let with_exists: Vec<(usize, bool)> = nodes.iter().map(|&n| (n, n < self.infos.len())).collect();
        let (remove, bridges) = shift_drag_bridge_plan(&self.wires, &with_exists);
        for id in remove {
            self.remove_edge(id);
        }
        for b in bridges {
            self.force_connect(b.from, b.from_port, b.to, b.to_port);
        }
    }
    fn insert_node_on_edge(&mut self, node: usize, edge: usize) -> bool {
        match splice_plan(&self.wires, node, self.infos.get(node).copied(), edge) {
            None => false,
            Some((remove, adds)) => {
                self.remove_edge(remove);
                for (from, from_port, to, to_port) in adds {
                    self.add_edge(from, from_port, to, to_port);
                }
                true
            }
        }
    }
}

fn chain_editor() -> (TestEditor, usize, usize, usize) {
    let mut editor = TestEditor::new();
    let a = editor.add_object(info(0, 1));
    let b = editor.add_object(info(1, 1));
    let c = editor.add_object(info(1, 0));
    editor.connect_ports_unchecked(a, 0, b, 0);
    editor.connect_ports_unchecked(b, 0, c, 0);
    (editor, a, b, c)
}

#[test]
fn shift_drag_bridge_reconnects_neighbors() {
    let (mut editor, a, middle, c) = chain_editor();
    editor.shift_drag_bridge_nodes(&[middle]);
    assert_eq!(editor.wires.len(), 1);
    assert_eq!(editor.wires[0].from, a);
    assert_eq!(editor.wires[0].to, c);
}

#[test]
fn shift_drag_insert_splits_edge() {
    let mut editor = TestEditor::new();
    let a = editor.add_object(info(0, 1));
    let c = editor.add_object(info(1, 0));
    let edge_id = editor.add_edge(a, 0, c, 0);
    let insert = editor.add_object(info(1, 1));
    assert!(editor.insert_node_on_edge(insert, edge_id));
    assert_eq!(editor.wires.len(), 2);
    let mut found = false;
    for w in &editor.wires {
        if w.from == insert {
            found = true;
            assert_eq!(w.to, c);
        }
        if w.to == insert {
            assert_eq!(w.from, a);
        }
    }
    assert!(found);
}

#[test]
fn shift_drag_insert_works_for_disconnected_splicable_node() {
    let mut editor = TestEditor::new();
    let a = editor.add_object(info(0, 1));
    let c = editor.add_object(info(1, 0));
    let edge_id = editor.add_edge(a, 0, c, 0);
    let insert = editor.add_object(info(1, 1));
    assert!(!node_shift_drag_eligible(&editor.wires, insert, true));
    assert!(node_shift_drag_insert_eligible(Some(editor.infos[insert])));
    assert!(editor.insert_node_on_edge(insert, edge_id));
    assert_eq!(editor.wires.len(), 2);
}

#[test]
fn shift_drag_insert_rejects_comment() {
    let mut editor = TestEditor::new();
    let a = editor.add_object(info(0, 1));
    let c = editor.add_object(info(1, 0));
    let edge_id = editor.add_edge(a, 0, c, 0);
    let comment = editor.add_object(ObjectInfo { comment: true, ..info(0, 0) });
    assert!(!editor.insert_node_on_edge(comment, edge_id));
    assert_eq!(editor.wires.len(), 1);
}

#[test]
fn duplicate_port_pair_connection_is_ignored() {
    let mut editor = TestEditor::new();
    let a = editor.add_object(info(0, 1));
    let b = editor.add_object(info(1, 0));
    editor.connect_ports_unchecked(a, 0, b, 0);
    editor.connect_ports(a, 0, b, 0);
    editor.connect_ports_unchecked(a, 0, b, 0);
    assert_eq!(editor.wires.len(), 1);
}

#[test]
fn different_ports_on_same_nodes_can_still_connect() {
    let mut editor = TestEditor::new();
    let combine = editor.add_object(info(2, 1));
    let a = editor.add_object(info(0, 1));
    let b = editor.add_object(info(0, 1));
    editor.connect_ports_unchecked(a, 0, combine, 0);
    editor.connect_ports_unchecked(b, 0, combine, 1);
    assert_eq!(editor.wires.len(), 2);
}

#[test]
fn finders_return_first_match() {
    let wires = vec![
        Wire { id: 4, from: 1, from_port: 0, to: 2, to_port: 1 },
        Wire { id: 7, from: 1, from_port: 0, to: 3, to_port: 0 },
        Wire { id: 9, from: 5, from_port: 1, to: 3, to_port: 0 },
    ];
    assert_eq!(find_edge_between_ports(&wires, 1, 0, 3, 0), Some(7));
    assert_eq!(find_edge_between_ports(&wires, 1, 1, 3, 0), None);
    assert_eq!(find_edge_from_outlet(&wires, 1, 0), Some((4, 2, 1)));
    assert_eq!(find_edge_from_outlet(&wires, 2, 0), None);
    assert_eq!(find_edge_to_inlet(&wires, 3, 0), Some((7, 1, 0)));
    assert_eq!(find_edge_to_inlet(&wires, 2, 0), None);
    let (ins, outs) = collect_node_edges(&wires, 3);
    assert_eq!(ins.iter().map(|w| w.id).collect::<Vec<_>>(), vec![7, 9]);
    assert!(outs.is_empty());
}

#[test]
fn connect_plans() {
    let wires = vec![
        Wire { id: 0, from: 0, from_port: 0, to: 1, to_port: 0 },
        Wire { id: 1, from: 1, from_port: 0, to: 2, to_port: 0 },
    ];
    let off = AutoWire { combine: false, send_receive: false, delay: false };
    let all = AutoWire { combine: true, send_receive: true, delay: true };
    let plain = info(1, 1);
    assert_eq!(connect_plan(&wires, 3, 0, 3, 0, all, plain, false), ConnectPlan::Ignore);
    assert_eq!(connect_plan(&wires, 0, 0, 1, 0, all, plain, false), ConnectPlan::Ignore);
    assert_eq!(
        connect_plan(&wires, 3, 0, 1, 0, all, plain, false),
        ConnectPlan::ThroughCombine { edge: 0, existing_from: 0, existing_out: 0 }
    );
    assert_eq!(
        connect_plan(&wires, 0, 0, 3, 0, all, plain, false),
        ConnectPlan::ThroughSendReceive { edge: 0, existing_to: 1, existing_to_in: 0 }
    );
    let send = ObjectInfo { send: true, signal_hex: Some(0x11), ..info(1, 0) };
    assert_eq!(connect_plan(&wires, 0, 0, 3, 0, all, send, false), ConnectPlan::ReceiveFromSend { hex: 0x11 });
    let bare_send = ObjectInfo { send: true, ..info(1, 0) };
    assert_eq!(connect_plan(&wires, 0, 0, 3, 0, all, bare_send, false), ConnectPlan::Ignore);
    assert_eq!(connect_plan(&wires, 2, 0, 0, 1, off, plain, true), ConnectPlan::Ignore);
    assert_eq!(connect_plan(&wires, 2, 0, 0, 1, all, plain, true), ConnectPlan::ThroughDelays);
    assert_eq!(connect_plan(&wires, 2, 0, 0, 1, all, plain, false), ConnectPlan::Connect);
    let _ = EdgeData { from_port: 0, to_port: 1, selected: false };
}

#[test]
fn used_ids_collected() {
    let infos = vec![
        ObjectInfo { signal_hex: Some(3), ..info(1, 1) },
        info(1, 1),
        ObjectInfo { signal_hex: Some(9), ..info(1, 1) },
        ObjectInfo { signal_hex: Some(3), ..info(1, 1) },
    ];
    let used = used_signal_hex_ids(&infos);
    assert_eq!(used.len(), 2);
    assert!(used.contains(&3) && used.contains(&9));
}

#[test]
fn shift_drag_insert_requires_eligibility_from_drag_start() {
    let (mut editor, _a, middle, _c) = chain_editor();
    editor.shift_drag_bridge_nodes(&[middle]);
    // The node is dropped onto the cable that now bridges it.
    let bridged = editor.wires[0].id;
    editor.try_shift_drag_insert_on_wire(middle, Some(bridged));
    assert_eq!(editor.wires.len(), 1);

    assert!(node_shift_drag_insert_eligible(Some(editor.infos[middle])));
    editor.mark_shift_drag_eligible(middle);
    editor.try_shift_drag_insert_on_wire(middle, Some(bridged));
    assert_eq!(editor.wires.len(), 2);
}

#[test]
fn splice_plan_keeps_existing_cables() {
    let w = |id, from, from_port, to, to_port| Wire { id, from, from_port, to, to_port };
    let wires = [w(0, 0, 0, 2, 0), w(1, 0, 0, 1, 0)];
    // Cable 1 already joins node 0 to inlet 0 of node 1: only the downstream cable is added.
    assert_eq!(splice_plan(&wires, 1, Some(info(1, 1)), 0), Some((0, vec![(1, 0, 2, 0)])));
    assert_eq!(splice_plan(&wires, 3, Some(info(1, 1)), 0), Some((0, vec![(0, 0, 3, 0), (3, 0, 2, 0)])));
    assert_eq!(splice_plan(&wires, 2, Some(info(1, 1)), 0), None);
    assert_eq!(splice_plan(&wires, 3, Some(info(1, 1)), 7), None);
    assert_eq!(splice_plan(&wires, 3, Some(info(0, 1)), 0), None);
    assert_eq!(splice_plan(&wires, 3, None, 0), None);
}
