//! Editing decisions on the patch's cables: finding cables by port,
//! shift-drag bridging and splicing, and what connecting two ports does.

use std::collections::HashSet;

use vstd::prelude::*;

verus! {

broadcast use vstd::std_specs::hash::group_hash_axioms;

/// A cable of the patch: its edge id, its ends and their ports.
#[derive(Clone, Copy, Debug, PartialEq, Eq, Structural)]
pub struct Wire {
    pub id: usize,
    pub from: usize,
    pub from_port: usize,
    pub to: usize,
    pub to_port: usize,
}

/// What editing decisions need to know of a node's object.
#[derive(Clone, Copy, Debug, PartialEq, Eq, Structural)]
pub struct ObjectInfo {
    pub comment: bool,
    pub send: bool,
    pub receive: bool,
    pub inlets: usize,
    pub outlets: usize,
    pub signal_hex: Option<u8>,
}

/// Cable data kept on a graph edge.
#[derive(Clone, Copy, Debug, PartialEq, Eq, Structural)]
pub struct EdgeData {
    pub from_port: usize,
    pub to_port: usize,
    pub selected: bool,
}

/// Position of the first wire satisfying `pred`.
pub open spec fn first_wire(wires: Seq<Wire>, pred: spec_fn(Wire) -> bool) -> Option<int>
    decreases wires.len(),
{
    if wires.len() == 0 {
        None
    } else {
        match first_wire(wires.drop_last(), pred) {
            Some(i) => Some(i),
            None => if pred(wires.last()) {
                Some(wires.len() - 1)
            } else {
                None
            },
        }
    }
}

fn find_first(wires: &[Wire], pred: Ghost<spec_fn(Wire) -> bool>, from: usize, out: usize, to: usize, inp: usize, mode: u8) -> (r: Option<usize>)
    requires
        mode == 0 ==> pred@ == between(from, out, to, inp),
        mode == 1 ==> pred@ == from_outlet(from, out),
        mode == 2 ==> pred@ == to_inlet(to, inp),
        mode == 3 ==> pred@ == has_id(from),
        mode <= 3,
    ensures
        match first_wire(wires@, pred@) {
            Some(i) => r == Some(i as usize),
            None => r is None,
        },
        r matches Some(k) ==> k < wires@.len(),
        first_wire(wires@, pred@) matches Some(i) ==> 0 <= i < wires@.len(),
{
    let mut k: usize = 0;
    while k < wires.len()
        invariant
            0 <= k <= wires@.len(),
            mode == 0 ==> pred@ == between(from, out, to, inp),
            mode == 1 ==> pred@ == from_outlet(from, out),
            mode == 2 ==> pred@ == to_inlet(to, inp),
            mode == 3 ==> pred@ == has_id(from),
            mode <= 3,
            first_wire(wires@.take(k as int), pred@) is None,
        decreases wires.len() - k,
    {
        assert(wires@.take(k + 1).drop_last() =~= wires@.take(k as int));
        assert(wires@.take(k + 1).last() == wires@[k as int]);
        let w = wires[k];
        let hit = if mode == 0 {
            w.from_port == out && w.to_port == inp && w.from == from && w.to == to
        } else if mode == 1 {
            w.from_port == out && w.from == from
        } else if mode == 2 {
            w.to_port == inp && w.to == to
        } else {
            w.id == from
        };
        if hit {
            proof {
                lemma_first_wire_prefix(wires@, pred@, k as int + 1);
            }
            return Some(k);
        }
        k = k + 1;
    }
    assert(wires@.take(k as int) =~= wires@);
    None
}

/// A first hit in a prefix is the first hit overall.
proof fn lemma_first_wire_prefix(wires: Seq<Wire>, pred: spec_fn(Wire) -> bool, k: int)
    requires
        0 <= k <= wires.len(),
        first_wire(wires.take(k), pred) is Some,
    ensures
        first_wire(wires, pred) == first_wire(wires.take(k), pred),
    decreases wires.len() - k,
{
    if k < wires.len() {
        assert(wires.take(k + 1).drop_last() =~= wires.take(k));
        lemma_first_wire_prefix(wires, pred, k + 1);
    } else {
        assert(wires.take(k) =~= wires);
    }
}

/// The cable from outlet `out` of `from` to inlet `inp` of `to`.
pub open spec fn between(from: usize, out: usize, to: usize, inp: usize) -> spec_fn(Wire) -> bool {
    |w: Wire| w.from_port == out && w.to_port == inp && w.from == from && w.to == to
}

/// A cable leaving outlet `out` of `from`.
pub open spec fn from_outlet(from: usize, out: usize) -> spec_fn(Wire) -> bool {
    |w: Wire| w.from_port == out && w.from == from
}

/// The cable with edge id `id`.
pub open spec fn has_id(id: usize) -> spec_fn(Wire) -> bool {
    |w: Wire| w.id == id
}

/// A cable entering inlet `inp` of `to`.
pub open spec fn to_inlet(to: usize, inp: usize) -> spec_fn(Wire) -> bool {
    |w: Wire| w.to_port == inp && w.to == to
}

/// The id of the first cable from outlet `from_out` of `from_node` to inlet
/// `to_in` of `to_node` (cables in edge order).
pub fn find_edge_between_ports(wires: &[Wire], from_node: usize, from_out: usize, to_node: usize, to_in: usize) -> (r:
    Option<usize>)
    ensures
        match first_wire(wires@, between(from_node, from_out, to_node, to_in)) {
            Some(i) => r == Some(wires@[i].id),
            None => r is None,
        },
{
    match find_first(wires, Ghost(between(from_node, from_out, to_node, to_in)), from_node, from_out, to_node, to_in, 0) {
        Some(k) => Some(wires[k].id),
        None => None,
    }
}

/// The first cable leaving outlet `from_out` of `from_node`: its id, target
/// node and target inlet.
pub fn find_edge_from_outlet(wires: &[Wire], from_node: usize, from_out: usize) -> (r: Option<(usize, usize, usize)>)
    ensures
        match first_wire(wires@, from_outlet(from_node, from_out)) {
            Some(i) => r == Some((wires@[i].id, wires@[i].to, wires@[i].to_port)),
            None => r is None,
        },
{
    match find_first(wires, Ghost(from_outlet(from_node, from_out)), from_node, from_out, 0, 0, 1) {
        Some(k) => Some((wires[k].id, wires[k].to, wires[k].to_port)),
        None => None,
    }
}

/// The first cable entering inlet `to_in` of `to_node`: its id, source node
/// and source outlet.
pub fn find_edge_to_inlet(wires: &[Wire], to_node: usize, to_in: usize) -> (r: Option<(usize, usize, usize)>)
    ensures
        match first_wire(wires@, to_inlet(to_node, to_in)) {
            Some(i) => r == Some((wires@[i].id, wires@[i].from, wires@[i].from_port)),
            None => r is None,
        },
{
    match find_first(wires, Ghost(to_inlet(to_node, to_in)), 0, 0, to_node, to_in, 2) {
        Some(k) => Some((wires[k].id, wires[k].from, wires[k].from_port)),
        None => None,
    }
}

/// The cables entering `node`, in edge order.
pub open spec fn wires_into(wires: Seq<Wire>, node: usize) -> Seq<Wire> {
    wires.filter(|w: Wire| w.to == node)
}

/// The cables leaving `node`, in edge order.
pub open spec fn wires_out_of(wires: Seq<Wire>, node: usize) -> Seq<Wire> {
    wires.filter(|w: Wire| w.from == node)
}

/// The cables entering and leaving `node`, each in edge order.
pub fn collect_node_edges(wires: &[Wire], node_id: usize) -> (r: (Vec<Wire>, Vec<Wire>))
    ensures
        r.0@ == wires_into(wires@, node_id),
        r.1@ == wires_out_of(wires@, node_id),
{
    let ghost into = |w: Wire| w.to == node_id;
    let ghost outof = |w: Wire| w.from == node_id;
    let mut incoming: Vec<Wire> = Vec::new();
    let mut outgoing: Vec<Wire> = Vec::new();
    let mut k: usize = 0;
    proof {
        reveal_with_fuel(Seq::filter, 1);
        assert(wires@.take(0) =~= Seq::<Wire>::empty());
    }
    while k < wires.len()
        invariant
            0 <= k <= wires@.len(),
            into == (|w: Wire| w.to == node_id),
            outof == (|w: Wire| w.from == node_id),
            incoming@ == wires@.take(k as int).filter(into),
            outgoing@ == wires@.take(k as int).filter(outof),
        decreases wires.len() - k,
    {
        let w = wires[k];
        proof {
            assert(wires@.take(k + 1) =~= wires@.take(k as int).push(w));
            wires@.take(k as int).lemma_filter_push(w, into);
            wires@.take(k as int).lemma_filter_push(w, outof);
        }
        if w.to == node_id {
            incoming.push(w);
        }
        if w.from == node_id {
            outgoing.push(w);
        }
        k = k + 1;
    }
    assert(wires@.take(k as int) =~= wires@);
    (incoming, outgoing)
}

/// A node can be lifted out of its chain by shift-drag: it exists and has
/// exactly one cable in and one cable out.
pub fn node_shift_drag_eligible(wires: &[Wire], node_id: usize, exists: bool) -> (r: bool)
    ensures
        r == (exists && wires_into(wires@, node_id).len() == 1 && wires_out_of(wires@, node_id).len() == 1),
{
    if !exists {
        return false;
    }
    let (incoming, outgoing) = collect_node_edges(wires, node_id);
    incoming.len() == 1 && outgoing.len() == 1
}

/// A node can be spliced into a cable: it exists, is not a comment, and has
/// at least one inlet and one outlet.
pub open spec fn spec_insert_eligible(info: Option<ObjectInfo>) -> bool {
    info matches Some(o) && !o.comment && o.inlets > 0 && o.outlets > 0
}

pub fn node_shift_drag_insert_eligible(info: Option<ObjectInfo>) -> (r: bool)
    ensures
        r == spec_insert_eligible(info),
{
    match info {
        Some(o) => !o.comment && o.inlets > 0 && o.outlets > 0,
        None => false,
    }
}

/// `node_id` can be spliced into the cable with the given ends: it is
/// eligible and is neither end of that cable.
pub fn can_insert_node_on_edge(node_id: usize, info: Option<ObjectInfo>, ends: Option<(usize, usize)>) -> (r: bool)
    ensures
        r == (spec_insert_eligible(info) && (ends matches Some((a, b)) && a != node_id && b != node_id)),
{
    if !node_shift_drag_insert_eligible(info) {
        return false;
    }
    match ends {
        Some((a, b)) => a != node_id && b != node_id,
        None => false,
    }
}

/// The nodes among `node_ids` (paired with whether they exist) that shift-drag
/// lifts out of their chains.
pub open spec fn bridged(wires: Seq<Wire>, nodes: Seq<(usize, bool)>) -> Seq<(usize, bool)> {
    nodes.filter(
        |n: (usize, bool)| n.1 && wires_into(wires, n.0).len() == 1 && wires_out_of(wires, n.0).len() == 1,
    )
}

/// Shift-drag bridging: for each eligible node, the ids of its two cables
/// (to remove) and the cable joining its upstream outlet to its downstream
/// inlet (to add), in the order of `nodes`.
pub fn shift_drag_bridge_plan(wires: &[Wire], nodes: &[(usize, bool)]) -> (r: (Vec<usize>, Vec<Wire>))
    ensures
        ({
            let b = bridged(wires@, nodes@);
            &&& r.0@.len() == 2 * b.len()
            &&& r.1@.len() == b.len()
            &&& forall|k: int|
                0 <= k < b.len() ==> {
                    let inw = wires_into(wires@, (#[trigger] b[k]).0)[0];
                    let outw = wires_out_of(wires@, b[k].0)[0];
                    &&& r.0@[2 * k] == inw.id
                    &&& r.0@[2 * k + 1] == outw.id
                    &&& r.1@[k] == (Wire {
                        id: 0,
                        from: inw.from,
                        from_port: inw.from_port,
                        to: outw.to,
                        to_port: outw.to_port,
                    })
                }
        }),
{
    let ghost keep = |n: (usize, bool)|
        n.1 && wires_into(wires@, n.0).len() == 1 && wires_out_of(wires@, n.0).len() == 1;
    let mut remove: Vec<usize> = Vec::new();
    let mut bridges: Vec<Wire> = Vec::new();
    let mut i: usize = 0;
    proof {
        reveal_with_fuel(Seq::filter, 1);
        assert(nodes@.take(0) =~= Seq::<(usize, bool)>::empty());
    }
    while i < nodes.len()
        invariant
            0 <= i <= nodes@.len(),
            keep == (|n: (usize, bool)| n.1 && wires_into(wires@, n.0).len() == 1 && wires_out_of(wires@, n.0).len() == 1),
            ({
                let b = nodes@.take(i as int).filter(keep);
                &&& remove@.len() == 2 * b.len()
                &&& bridges@.len() == b.len()
                &&& forall|k: int|
                    0 <= k < b.len() ==> {
                        let inw = wires_into(wires@, (#[trigger] b[k]).0)[0];
                        let outw = wires_out_of(wires@, b[k].0)[0];
                        &&& remove@[2 * k] == inw.id
                        &&& remove@[2 * k + 1] == outw.id
                        &&& bridges@[k] == (Wire {
                            id: 0,
                            from: inw.from,
                            from_port: inw.from_port,
                            to: outw.to,
                            to_port: outw.to_port,
                        })
                    }
            }),
        decreases nodes.len() - i,
    {
        let (node_id, exists) = nodes[i];
        let ghost before = nodes@.take(i as int).filter(keep);
        proof {
            assert(nodes@.take(i + 1) =~= nodes@.take(i as int).push(nodes@[i as int]));
            nodes@.take(i as int).lemma_filter_push(nodes@[i as int], keep);
        }
        if node_shift_drag_eligible(wires, node_id, exists) {
            let (incoming, outgoing) = collect_node_edges(wires, node_id);
            let inw = incoming[0];
            let outw = outgoing[0];
            let ghost r0 = remove@;
            let ghost b0 = bridges@;
            remove.push(inw.id);
            remove.push(outw.id);
            bridges.push(Wire { id: 0, from: inw.from, from_port: inw.from_port, to: outw.to, to_port: outw.to_port });
            proof {
                let b = nodes@.take(i + 1).filter(keep);
                assert(b == before.push(nodes@[i as int]));
                assert forall|k: int| 0 <= k < b.len() implies {
                    let inw = wires_into(wires@, (#[trigger] b[k]).0)[0];
                    let outw = wires_out_of(wires@, b[k].0)[0];
                    &&& remove@[2 * k] == inw.id
                    &&& remove@[2 * k + 1] == outw.id
                    &&& bridges@[k] == (Wire {
                        id: 0,
                        from: inw.from,
                        from_port: inw.from_port,
                        to: outw.to,
                        to_port: outw.to_port,
                    })
                } by {
                    if k < before.len() {
                        assert(b[k] == before[k]);
                        assert(remove@[2 * k] == r0[2 * k]);
                        assert(remove@[2 * k + 1] == r0[2 * k + 1]);
                        assert(bridges@[k] == b0[k]);
                    } else {
                        assert(b[k] == nodes@[i as int]);
                    }
                }
            }
        }
        i = i + 1;
    }
    assert(nodes@.take(i as int) =~= nodes@);
    (remove, bridges)
}

/// What connecting an outlet to an inlet does to the patch.
#[derive(Clone, Copy, Debug, PartialEq, Eq, Structural)]
pub enum ConnectPlan {
    /// Nothing changes (same node, an existing identical cable, or an
    /// unlabelled `[send]` already on the outlet).
    Ignore,
    /// Add the cable.
    Connect,
    /// The inlet is taken: replace that cable by a `[combine]` fed by both.
    ThroughCombine { edge: usize, existing_from: usize, existing_out: usize },
    /// The outlet already feeds a `[send]` with this id: add a matching
    /// `[receive]` before the inlet.
    ReceiveFromSend { hex: u8 },
    /// The outlet is taken: move its cable and the new one behind a
    /// `[send]` / `[receive]` pair.
    ThroughSendReceive { edge: usize, existing_to: usize, existing_to_in: usize },
    /// The cable would close a cycle: route it through a delay pair.
    ThroughDelays,
}

/// Switches that choose how conflicting cables are resolved.
#[derive(Clone, Copy, Debug, PartialEq, Eq, Structural)]
pub struct AutoWire {
    pub combine: bool,
    pub send_receive: bool,
    pub delay: bool,
}

/// The plan for connecting outlet `from_out` of `from_node` to inlet `to_in`
/// of `to_node`, given the cables, the object facts of the node the outlet
/// already feeds (`existing_to_info`, when it does) and whether `from_node`
/// is reachable from `to_node` (the new cable would close a cycle).
pub open spec fn spec_connect_plan(
    wires: Seq<Wire>,
    from_node: usize,
    from_out: usize,
    to_node: usize,
    to_in: usize,
    auto: AutoWire,
    existing_to_info: ObjectInfo,
    closes_cycle: bool,
) -> ConnectPlan {
    if from_node == to_node {
        ConnectPlan::Ignore
    } else if first_wire(wires, between(from_node, from_out, to_node, to_in)) is Some {
        ConnectPlan::Ignore
    } else if auto.combine && first_wire(wires, to_inlet(to_node, to_in)) is Some {
        let w = wires[first_wire(wires, to_inlet(to_node, to_in))->0];
        ConnectPlan::ThroughCombine { edge: w.id, existing_from: w.from, existing_out: w.from_port }
    } else if auto.send_receive && first_wire(wires, from_outlet(from_node, from_out)) is Some {
        let w = wires[first_wire(wires, from_outlet(from_node, from_out))->0];
        if existing_to_info.send {
            match existing_to_info.signal_hex {
                Some(h) => ConnectPlan::ReceiveFromSend { hex: h },
                None => ConnectPlan::Ignore,
            }
        } else {
            ConnectPlan::ThroughSendReceive { edge: w.id, existing_to: w.to, existing_to_in: w.to_port }
        }
    } else if !closes_cycle {
        ConnectPlan::Connect
    } else if auto.delay {
        ConnectPlan::ThroughDelays
    } else {
        ConnectPlan::Ignore
    }
}

/// Decides what connecting the two ports does (see [`spec_connect_plan`]).
/// `existing_to_info` describes the node fed by the first cable already on
/// the outlet, and matters only when there is one.
pub fn connect_plan(
    wires: &[Wire],
    from_node: usize,
    from_out: usize,
    to_node: usize,
    to_in: usize,
    auto: AutoWire,
    existing_to_info: ObjectInfo,
    closes_cycle: bool,
) -> (r: ConnectPlan)
    ensures
        r == spec_connect_plan(wires@, from_node, from_out, to_node, to_in, auto, existing_to_info, closes_cycle),
{
    if from_node == to_node {
        return ConnectPlan::Ignore;
    }
    if find_edge_between_ports(wires, from_node, from_out, to_node, to_in).is_some() {
        return ConnectPlan::Ignore;
    }
    if auto.combine {
        if let Some((edge, existing_from, existing_out)) = find_edge_to_inlet(wires, to_node, to_in) {
            return ConnectPlan::ThroughCombine { edge, existing_from, existing_out };
        }
    }
    if auto.send_receive {
        if let Some((edge, existing_to, existing_to_in)) = find_edge_from_outlet(wires, from_node, from_out) {
            if existing_to_info.send {
                return match existing_to_info.signal_hex {
                    Some(h) => ConnectPlan::ReceiveFromSend { hex: h },
                    None => ConnectPlan::Ignore,
                };
            }
            return ConnectPlan::ThroughSendReceive { edge, existing_to, existing_to_in };
        }
    }
    if !closes_cycle {
        return ConnectPlan::Connect;
    }
    if auto.delay {
        ConnectPlan::ThroughDelays
    } else {
        ConnectPlan::Ignore
    }
}

/// Signal ids recorded on the objects.
pub fn used_signal_hex_ids(infos: &[ObjectInfo]) -> (used: HashSet<u8>)
    ensures
        forall|h: u8|
            #[trigger] used@.contains(h) <==> exists|i: int| 0 <= i < infos@.len() && infos@[i].signal_hex == Some(h),
{
    let mut used: HashSet<u8> = HashSet::new();
    let mut i: usize = 0;
    while i < infos.len()
        invariant
            0 <= i <= infos@.len(),
            forall|h: u8|
                #[trigger] used@.contains(h) <==> exists|j: int| 0 <= j < i && infos@[j].signal_hex == Some(h),
        decreases infos.len() - i,
    {
        if let Some(h) = infos[i].signal_hex {
            used.insert(h);
        }
        i = i + 1;
    }
    used
}

/// A cable to add: outlet `.1` of `.0` to inlet `.3` of `.2`.
pub type Cable = (usize, usize, usize, usize);

/// Splicing `node` into the cable with id `edge`: `None` when there is no
/// such cable or the node cannot be spliced into it; else that cable's id
/// (to remove) and the cables to add, from its source into inlet 0 of the
/// node and from outlet 0 of the node to its target, each left out when
/// the remaining cables already hold it.
pub open spec fn spec_splice_plan(wires: Seq<Wire>, node: usize, info: Option<ObjectInfo>, edge: usize) -> Option<
    (usize, Seq<Cable>),
> {
    match first_wire(wires, has_id(edge)) {
        None => None,
        Some(i) => {
            let w = wires[i];
            if !(spec_insert_eligible(info) && w.from != node && w.to != node) {
                None
            } else {
                let rest = wires.remove(i);
                let up: Cable = (w.from, w.from_port, node, 0);
                let down: Cable = (node, 0, w.to, w.to_port);
                let adds = if first_wire(rest, between(w.from, w.from_port, node, 0)) is Some {
                    Seq::<Cable>::empty()
                } else {
                    seq![up]
                };
                let adds = if first_wire(rest, between(node, 0, w.to, w.to_port)) is Some {
                    adds
                } else {
                    adds.push(down)
                };
                Some((w.id, adds))
            }
        },
    }
}

/// The plan for splicing `node` (whose object facts are `info`) into the
/// cable with id `edge` (see [`spec_splice_plan`]).
pub fn splice_plan(wires: &[Wire], node: usize, info: Option<ObjectInfo>, edge: usize) -> (r: Option<(usize, Vec<Cable>)>)
    ensures
        match spec_splice_plan(wires@, node, info, edge) {
            None => r is None,
            Some((id, adds)) => r matches Some((rid, radds)) && rid == id && radds@ == adds,
        },
{
    let i = match find_first(wires, Ghost(has_id(edge)), edge, 0, 0, 0, 3) {
        None => {
            return None;
        },
        Some(i) => i,
    };
    let w = wires[i];
    if !can_insert_node_on_edge(node, info, Some((w.from, w.to))) {
        return None;
    }
    let mut rest: Vec<Wire> = Vec::new();
    let mut k: usize = 0;
    while k < wires.len()
        invariant
            i < wires@.len(),
            k <= wires@.len(),
            rest@ == (if k <= i {
                wires@.take(k as int)
            } else {
                wires@.remove(i as int).take(k - 1)
            }),
        decreases wires@.len() - k,
    {
        if k != i {
            rest.push(wires[k]);
        }
        proof {
            if k < i {
                assert(rest@ =~= wires@.take(k + 1));
            } else if k == i {
                assert(rest@ =~= wires@.remove(i as int).take(k as int));
            } else {
                assert(rest@ =~= wires@.remove(i as int).take(k as int));
            }
        }
        k = k + 1;
    }
    proof {
        assert(rest@ =~= wires@.remove(i as int));
    }
    let mut adds: Vec<Cable> = Vec::new();
    if find_edge_between_ports(&rest, w.from, w.from_port, node, 0).is_none() {
        adds.push((w.from, w.from_port, node, 0));
    }
    if find_edge_between_ports(&rest, node, 0, w.to, w.to_port).is_none() {
        adds.push((node, 0, w.to, w.to_port));
    }
    Some((w.id, adds))
}


/// `first_wire` gives the position of the first wire satisfying `pred`.
pub proof fn lemma_first_wire(wires: Seq<Wire>, pred: spec_fn(Wire) -> bool)
    ensures
        first_wire(wires, pred) matches Some(i) ==> {
            &&& 0 <= i < wires.len()
            &&& pred(wires[i])
            &&& forall|j: int| 0 <= j < i ==> !pred(#[trigger] wires[j])
        },
        first_wire(wires, pred) is None ==> forall|j: int| 0 <= j < wires.len() ==> !pred(#[trigger] wires[j]),
    decreases wires.len(),
{
    if wires.len() > 0 {
        let d = wires.drop_last();
        lemma_first_wire(d, pred);
        assert forall|j: int| 0 <= j < d.len() implies d[j] == wires[j] by {}
    }
}

/// Law: when the inlet is already fed and auto-combine is on (and the cable
/// is neither a self-connection nor already there), the plan goes through a
/// `[combine]`; and a plan through a `[combine]` names the first cable into
/// that inlet, with that cable's own source node and source outlet, so the
/// rebuilt cables start where the old one did.
pub proof fn lemma_combine_keeps_existing_source(
    wires: Seq<Wire>,
    from_node: usize,
    from_out: usize,
    to_node: usize,
    to_in: usize,
    auto: AutoWire,
    existing_to_info: ObjectInfo,
    closes_cycle: bool,
)
    ensures
        spec_connect_plan(wires, from_node, from_out, to_node, to_in, auto, existing_to_info, closes_cycle)
            matches ConnectPlan::ThroughCombine { edge, existing_from, existing_out } ==> exists|i: int|
            0 <= i < wires.len() && #[trigger] wires[i] == (Wire {
                id: edge,
                from: existing_from,
                from_port: existing_out,
                to: to_node,
                to_port: to_in,
            }) && forall|j: int| 0 <= j < i ==> !((#[trigger] wires[j]).to == to_node && wires[j].to_port == to_in),
        auto.combine && from_node != to_node
            && (forall|j: int| 0 <= j < wires.len() ==> !((#[trigger] wires[j]).from == from_node
                && wires[j].from_port == from_out && wires[j].to == to_node && wires[j].to_port == to_in))
            && (exists|j: int| 0 <= j < wires.len() && (#[trigger] wires[j]).to == to_node && wires[j].to_port == to_in)
            ==> spec_connect_plan(wires, from_node, from_out, to_node, to_in, auto, existing_to_info, closes_cycle)
            is ThroughCombine,
{
    let pin = to_inlet(to_node, to_in);
    let pb = between(from_node, from_out, to_node, to_in);
    lemma_first_wire(wires, pin);
    lemma_first_wire(wires, pb);
    let r = spec_connect_plan(wires, from_node, from_out, to_node, to_in, auto, existing_to_info, closes_cycle);
    if let ConnectPlan::ThroughCombine { edge, existing_from, existing_out } = r {
        let i = first_wire(wires, pin)->0;
        assert forall|j: int| 0 <= j < i implies !((#[trigger] wires[j]).to == to_node && wires[j].to_port == to_in) by {
            assert(!pin(wires[j]));
        }
        assert(wires[i] == Wire { id: edge, from: existing_from, from_port: existing_out, to: to_node, to_port: to_in });
    }
    if auto.combine && from_node != to_node
        && (forall|j: int| 0 <= j < wires.len() ==> !((#[trigger] wires[j]).from == from_node
            && wires[j].from_port == from_out && wires[j].to == to_node && wires[j].to_port == to_in))
        && (exists|j: int| 0 <= j < wires.len() && (#[trigger] wires[j]).to == to_node && wires[j].to_port == to_in) {
        let j = choose|j: int| 0 <= j < wires.len() && (#[trigger] wires[j]).to == to_node && wires[j].to_port == to_in;
        assert(pin(wires[j]));
        if let Some(k) = first_wire(wires, pb) {
            assert(pb(wires[k]));
            assert(!(wires[k].from == from_node && wires[k].from_port == from_out && wires[k].to == to_node
                && wires[k].to_port == to_in));
        }
    }
}

/// Law: a plan through a `[send]` / `[receive]` pair names the first cable
/// leaving that outlet, with that cable's own target node and inlet; a
/// `[receive]` added after an existing `[send]` takes that send's id; and a
/// plain cable is planned only between two different nodes not yet joined
/// at these ports.
pub proof fn lemma_send_receive_keeps_existing_target(
    wires: Seq<Wire>,
    from_node: usize,
    from_out: usize,
    to_node: usize,
    to_in: usize,
    auto: AutoWire,
    existing_to_info: ObjectInfo,
    closes_cycle: bool,
)
    ensures
        spec_connect_plan(wires, from_node, from_out, to_node, to_in, auto, existing_to_info, closes_cycle)
            matches ConnectPlan::ThroughSendReceive { edge, existing_to, existing_to_in } ==> exists|i: int|
            0 <= i < wires.len() && #[trigger] wires[i] == (Wire {
                id: edge,
                from: from_node,
                from_port: from_out,
                to: existing_to,
                to_port: existing_to_in,
            }) && forall|j: int| 0 <= j < i ==> !((#[trigger] wires[j]).from == from_node && wires[j].from_port == from_out),
        spec_connect_plan(wires, from_node, from_out, to_node, to_in, auto, existing_to_info, closes_cycle)
            matches ConnectPlan::ReceiveFromSend { hex } ==> existing_to_info.send && existing_to_info.signal_hex
            == Some(hex),
        spec_connect_plan(wires, from_node, from_out, to_node, to_in, auto, existing_to_info, closes_cycle)
            is Connect ==> from_node != to_node && !closes_cycle && forall|j: int|
            0 <= j < wires.len() ==> !((#[trigger] wires[j]).from == from_node && wires[j].from_port == from_out
                && wires[j].to == to_node && wires[j].to_port == to_in),
{
    let pout = from_outlet(from_node, from_out);
    let pb = between(from_node, from_out, to_node, to_in);
    lemma_first_wire(wires, pout);
    lemma_first_wire(wires, pb);
    let r = spec_connect_plan(wires, from_node, from_out, to_node, to_in, auto, existing_to_info, closes_cycle);
    if let ConnectPlan::ThroughSendReceive { edge, existing_to, existing_to_in } = r {
        let i = first_wire(wires, pout)->0;
        assert forall|j: int| 0 <= j < i implies !((#[trigger] wires[j]).from == from_node && wires[j].from_port
            == from_out) by {
            assert(!pout(wires[j]));
        }
        assert(wires[i] == Wire {
            id: edge,
            from: from_node,
            from_port: from_out,
            to: existing_to,
            to_port: existing_to_in,
        });
    }
    if r is Connect {
        assert forall|j: int| 0 <= j < wires.len() implies !((#[trigger] wires[j]).from == from_node
            && wires[j].from_port == from_out && wires[j].to == to_node && wires[j].to_port == to_in) by {
            assert(!pb(wires[j]));
        }
    }
}

/// Law: splicing a node into a cable keeps that cable's ends. The plan
/// removes the first cable with id `edge`; each cable it adds runs either
/// from that cable's source outlet into inlet 0 of the node, or from outlet
/// 0 of the node into that cable's target inlet; and each of these two is
/// added unless another cable already joins the same ports.
pub proof fn lemma_splice_keeps_cable_ends(wires: Seq<Wire>, node: usize, info: Option<ObjectInfo>, edge: usize)
    ensures
        spec_splice_plan(wires, node, info, edge) matches Some((id, adds)) ==> exists|i: int|
            0 <= i < wires.len() && (#[trigger] wires[i]).id == edge && id == edge && (forall|j: int|
                0 <= j < i ==> (#[trigger] wires[j]).id != edge) && adds.len() <= 2 && (forall|k: int|
                0 <= k < adds.len() ==> #[trigger] adds[k] == (wires[i].from, wires[i].from_port, node, 0usize)
                    || adds[k] == (node, 0usize, wires[i].to, wires[i].to_port)) && (adds.contains(
                (wires[i].from, wires[i].from_port, node, 0usize),
            ) || exists|j: int|
                0 <= j < wires.len() && j != i && (#[trigger] wires[j]).from == wires[i].from && wires[j].from_port
                    == wires[i].from_port && wires[j].to == node && wires[j].to_port == 0) && (adds.contains(
                (node, 0usize, wires[i].to, wires[i].to_port),
            ) || exists|j: int|
                0 <= j < wires.len() && j != i && (#[trigger] wires[j]).from == node && wires[j].from_port == 0
                    && wires[j].to == wires[i].to && wires[j].to_port == wires[i].to_port),
{
    lemma_first_wire(wires, has_id(edge));
    if let Some((id, adds)) = spec_splice_plan(wires, node, info, edge) {
        let i = first_wire(wires, has_id(edge))->0;
        let w = wires[i];
        let rest = wires.remove(i);
        let up: Cable = (w.from, w.from_port, node, 0);
        let down: Cable = (node, 0, w.to, w.to_port);
        let pu = between(w.from, w.from_port, node, 0);
        let pd = between(node, 0, w.to, w.to_port);
        lemma_first_wire(rest, pu);
        lemma_first_wire(rest, pd);
        assert forall|j: int| 0 <= j < i implies (#[trigger] wires[j]).id != edge by {
            assert(!has_id(edge)(wires[j]));
        }
        let a1 = if first_wire(rest, pu) is Some {
            Seq::<Cable>::empty()
        } else {
            seq![up]
        };
        if let Some(k) = first_wire(rest, pu) {
            assert(pu(rest[k]));
            let j = if k < i { k } else { k + 1 };
            assert(rest[k] == wires[j]);
            assert(wires[j].from == w.from && wires[j].from_port == w.from_port && wires[j].to == node
                && wires[j].to_port == 0);
        } else {
            assert(a1[0] == up);
        }
        if let Some(k) = first_wire(rest, pd) {
            assert(pd(rest[k]));
            let j = if k < i { k } else { k + 1 };
            assert(rest[k] == wires[j]);
            assert(wires[j].from == node && wires[j].from_port == 0 && wires[j].to == w.to
                && wires[j].to_port == w.to_port);
        } else {
            assert(adds[adds.len() - 1] == down);
            if first_wire(rest, pu) is None {
                assert(adds[0] == up);
            }
        }
    }
}

/// Law: splicing is refused exactly when there is no cable with id `edge`,
/// the node is missing, a comment, or lacks an inlet or an outlet, or the
/// node is an end of that cable.
pub proof fn lemma_splice_refused(wires: Seq<Wire>, node: usize, info: Option<ObjectInfo>, edge: usize)
    ensures
        spec_splice_plan(wires, node, info, edge) is None <==> (forall|j: int|
            0 <= j < wires.len() ==> (#[trigger] wires[j]).id != edge) || !(info matches Some(o) && !o.comment
            && o.inlets > 0 && o.outlets > 0) || exists|i: int|
            0 <= i < wires.len() && (#[trigger] wires[i]).id == edge && (forall|j: int|
                0 <= j < i ==> (#[trigger] wires[j]).id != edge) && (wires[i].from == node || wires[i].to == node),
{
    lemma_first_wire(wires, has_id(edge));
    if let Some(i) = first_wire(wires, has_id(edge)) {
        assert(has_id(edge)(wires[i]));
        assert forall|j: int| 0 <= j < i implies (#[trigger] wires[j]).id != edge by {
            assert(!has_id(edge)(wires[j]));
        }
        if exists|i2: int|
            0 <= i2 < wires.len() && (#[trigger] wires[i2]).id == edge && (forall|j: int|
                0 <= j < i2 ==> (#[trigger] wires[j]).id != edge) && (wires[i2].from == node || wires[i2].to == node) {
            let i2 = choose|i2: int|
                0 <= i2 < wires.len() && (#[trigger] wires[i2]).id == edge && (forall|j: int|
                    0 <= j < i2 ==> (#[trigger] wires[j]).id != edge) && (wires[i2].from == node || wires[i2].to == node);
            if i2 < i {
                assert(wires[i2].id != edge);
            }
            if i < i2 {
                assert(wires[i].id != edge);
            }
        }
    } else {
        assert forall|j: int| 0 <= j < wires.len() implies (#[trigger] wires[j]).id != edge by {
            assert(!has_id(edge)(wires[j]));
        }
    }
}

} // verus!
