//! Decisions of an editing session on the canvas: what a click on a port
//! does, how ports are highlighted, picking cables up again, copying nodes
//! with their cables and signal ids, and moving the keyboard focus.

use std::collections::HashSet;

use vstd::prelude::*;

use crate::editing::{ObjectInfo, Wire};
use crate::editor::PortHighlight;
use crate::labels::random_unused_delay_hex;

verus! {

/// Which end of a cable a port is.
#[derive(Clone, Copy, Debug, PartialEq, Eq, Structural)]
pub enum WireEnd {
    Inlet,
    Outlet,
}

/// A cable being drawn: it starts at `port` of `node`, which is an outlet or
/// an inlet as `end` says.
#[derive(Clone, Copy, Debug, PartialEq, Eq, Structural)]
pub struct PendingWire {
    pub node: usize,
    pub port: usize,
    pub end: WireEnd,
}

/// What a click on the canvas does to the cable being drawn.
#[derive(Clone, Copy, Debug, PartialEq, Eq, Structural)]
pub enum PortClick {
    /// Connect outlet `from_port` of `from` to inlet `to_port` of `to`.
    Connect { from: usize, from_port: usize, to: usize, to_port: usize },
    /// Start drawing a cable from this port instead.
    Start(PendingWire),
    /// Nothing changes.
    Ignore,
}

pub open spec fn spec_port_click(
    pending: Option<PendingWire>,
    outlet_hit: Option<(usize, usize)>,
    inlet_hit: Option<(usize, usize)>,
) -> PortClick {
    match pending {
        Some(p) => match p.end {
            WireEnd::Outlet => match (inlet_hit, outlet_hit) {
                (Some((n, i)), _) => PortClick::Connect { from: p.node, from_port: p.port, to: n, to_port: i },
                (None, Some((n, o))) => PortClick::Start(PendingWire { node: n, port: o, end: WireEnd::Outlet }),
                (None, None) => PortClick::Ignore,
            },
            WireEnd::Inlet => match (outlet_hit, inlet_hit) {
                (Some((n, o)), _) => PortClick::Connect { from: n, from_port: o, to: p.node, to_port: p.port },
                (None, Some((n, i))) => PortClick::Start(PendingWire { node: n, port: i, end: WireEnd::Inlet }),
                (None, None) => PortClick::Ignore,
            },
        },
        None => match (outlet_hit, inlet_hit) {
            (Some((n, o)), _) => PortClick::Start(PendingWire { node: n, port: o, end: WireEnd::Outlet }),
            (None, Some((n, i))) => PortClick::Start(PendingWire { node: n, port: i, end: WireEnd::Inlet }),
            (None, None) => PortClick::Ignore,
        },
    }
}

/// What a click does, given the cable being drawn (the first pending one)
/// and the outlet and inlet under the pointer. A cable from an outlet ends at
/// an inlet and one from an inlet at an outlet; a click on a port of the
/// same kind starts over from there; with no cable, a click on a port (an
/// outlet first) starts one.
pub fn port_click(
    pending: Option<PendingWire>,
    outlet_hit: Option<(usize, usize)>,
    inlet_hit: Option<(usize, usize)>,
) -> (r: PortClick)
    ensures
        r == spec_port_click(pending, outlet_hit, inlet_hit),
{
    match pending {
        Some(p) => match p.end {
            WireEnd::Outlet => match (inlet_hit, outlet_hit) {
                (Some((n, i)), _) => PortClick::Connect { from: p.node, from_port: p.port, to: n, to_port: i },
                (None, Some((n, o))) => PortClick::Start(PendingWire { node: n, port: o, end: WireEnd::Outlet }),
                (None, None) => PortClick::Ignore,
            },
            WireEnd::Inlet => match (outlet_hit, inlet_hit) {
                (Some((n, o)), _) => PortClick::Connect { from: n, from_port: o, to: p.node, to_port: p.port },
                (None, Some((n, i))) => PortClick::Start(PendingWire { node: n, port: i, end: WireEnd::Inlet }),
                (None, None) => PortClick::Ignore,
            },
        },
        None => match (outlet_hit, inlet_hit) {
            (Some((n, o)), _) => PortClick::Start(PendingWire { node: n, port: o, end: WireEnd::Outlet }),
            (None, Some((n, i))) => PortClick::Start(PendingWire { node: n, port: i, end: WireEnd::Inlet }),
            (None, None) => PortClick::Ignore,
        },
    }
}

pub open spec fn spec_port_highlight(
    splice_node: Option<usize>,
    pending: Option<PendingWire>,
    target: Option<(usize, usize, WireEnd)>,
    node: usize,
    port: usize,
    end: WireEnd,
    hovered: bool,
) -> PortHighlight {
    if splice_node == Some(node) && port == 0 {
        PortHighlight::ConnectTarget
    } else if pending is Some && pending->0 == (PendingWire { node, port, end }) {
        PortHighlight::Connecting
    } else if pending is Some && target == Some((node, port, end)) {
        PortHighlight::ConnectTarget
    } else if hovered {
        PortHighlight::Hovered
    } else {
        PortHighlight::Idle
    }
}

/// How port `port` (an `end`) of `node` is drawn: as the target of a
/// shift-drag splice (its first port), as the start of the cable being
/// drawn, as where that cable would end (`target`, the port under the
/// pointer that it could connect to), hovered, or not at all.
pub fn port_highlight(
    splice_node: Option<usize>,
    pending: Option<PendingWire>,
    target: Option<(usize, usize, WireEnd)>,
    node: usize,
    port: usize,
    end: WireEnd,
    hovered: bool,
) -> (r: PortHighlight)
    ensures
        r == spec_port_highlight(splice_node, pending, target, node, port, end, hovered),
{
    if let Some(s) = splice_node {
        if s == node && port == 0 {
            return PortHighlight::ConnectTarget;
        }
    }
    if let Some(p) = pending {
        if p.node == node && p.port == port && p.end == end {
            return PortHighlight::Connecting;
        }
        if let Some((tn, tp, te)) = target {
            if tn == node && tp == port && te == end {
                return PortHighlight::ConnectTarget;
            }
        }
    }
    if hovered {
        PortHighlight::Hovered
    } else {
        PortHighlight::Idle
    }
}

/// The cable that stays pending when `w` is picked up by its `end`: the
/// other end of `w`.
pub open spec fn picked_up(w: Wire, end: WireEnd) -> PendingWire {
    match end {
        WireEnd::Inlet => PendingWire { node: w.from, port: w.from_port, end: WireEnd::Outlet },
        WireEnd::Outlet => PendingWire { node: w.to, port: w.to_port, end: WireEnd::Inlet },
    }
}

/// Picking up the cables of a handle group by their `end`: the cables that
/// stay pending, one per cable picked up and in the same order.
pub fn rewire_pending(wires: &[Wire], end: WireEnd) -> (r: Vec<PendingWire>)
    ensures
        r@.len() == wires@.len(),
        forall|i: int| 0 <= i < wires@.len() ==> #[trigger] r@[i] == picked_up(wires@[i], end),
{
    let mut out: Vec<PendingWire> = Vec::new();
    let mut i: usize = 0;
    while i < wires.len()
        invariant
            i <= wires@.len(),
            out@.len() == i,
            forall|k: int| 0 <= k < i ==> #[trigger] out@[k] == picked_up(wires@[k], end),
        decreases wires@.len() - i,
    {
        let w = wires[i];
        let p = match end {
            WireEnd::Inlet => PendingWire { node: w.from, port: w.from_port, end: WireEnd::Outlet },
            WireEnd::Outlet => PendingWire { node: w.to, port: w.to_port, end: WireEnd::Inlet },
        };
        out.push(p);
        i = i + 1;
    }
    out
}

/// Moves the keyboard focus sideways within its row: `delta` slots from
/// `slot` in row `row`; `None` where that row or slot does not exist.
pub fn nav_horizontal(rows: &[Vec<usize>], row: u32, slot: u32, delta: i32) -> (r: Option<usize>)
    requires
        slot <= i32::MAX,
        i32::MIN <= slot + delta <= i32::MAX,
    ensures
        r == (if (row as int) < rows@.len() && 0 <= slot + delta < rows@[row as int]@.len() {
            Some(rows@[row as int]@[slot + delta])
        } else {
            None
        }),
{
    let r = row as usize;
    if r >= rows.len() {
        return None;
    }
    let target: i64 = slot as i64 + delta as i64;
    if target < 0 || target as u64 >= rows[r].len() as u64 {
        return None;
    }
    let t = target as usize;
    Some(rows[r][t])
}

/// Which nodes an alt-drag copies: the whole selection when the dragged node
/// is selected together with others, else the dragged node alone.
pub fn nodes_to_duplicate(dragged: usize, dragged_selected: bool, selected: &[usize]) -> (r: Vec<usize>)
    ensures
        r@ == (if dragged_selected && selected@.len() > 1 { selected@ } else { seq![dragged] }),
{
    if dragged_selected && selected.len() > 1 {
        let mut out: Vec<usize> = Vec::new();
        let mut i: usize = 0;
        while i < selected.len()
            invariant
                i <= selected@.len(),
                out@ == selected@.subrange(0, i as int),
            decreases selected@.len() - i,
        {
            out.push(selected[i]);
            i = i + 1;
        }
        out
    } else {
        vec![dragged]
    }
}

/// A node's part in an alt-drag copy.
#[derive(Clone, Copy, Debug, PartialEq, Eq, Structural)]
pub enum AltDragNodeKind {
    Uninvolved,
    Original,
    Copy,
}

/// The part `node` plays in the alt-drag copy under way, if one is: one of
/// the nodes copied, one of the copies, or neither.
pub fn alt_drag_node_kind(node: usize, drag: Option<(&[usize], &[usize])>) -> (r: AltDragNodeKind)
    ensures
        r == (match drag {
            None => AltDragNodeKind::Uninvolved,
            Some((originals, copies)) => if originals@.contains(node) {
                AltDragNodeKind::Original
            } else if copies@.contains(node) {
                AltDragNodeKind::Copy
            } else {
                AltDragNodeKind::Uninvolved
            },
        }),
{
    match drag {
        None => AltDragNodeKind::Uninvolved,
        Some((originals, copies)) => {
            if contains_node(originals, node) {
                AltDragNodeKind::Original
            } else if contains_node(copies, node) {
                AltDragNodeKind::Copy
            } else {
                AltDragNodeKind::Uninvolved
            }
        },
    }
}

fn contains_node(ids: &[usize], node: usize) -> (r: bool)
    ensures
        r == ids@.contains(node),
{
    let mut i: usize = 0;
    while i < ids.len()
        invariant
            i <= ids@.len(),
            forall|k: int| 0 <= k < i ==> ids@[k] != node,
        decreases ids@.len() - i,
    {
        if ids[i] == node {
            return true;
        }
        i = i + 1;
    }
    false
}

/// Whether cable `w` no longer fits `node` once the node has `inlets` inlets
/// and `outlets` outlets.
pub open spec fn port_out_of_range(w: Wire, node: usize, inlets: usize, outlets: usize) -> bool {
    (w.from == node && w.from_port >= outlets) || (w.to == node && w.to_port >= inlets)
}

/// The ids of the cables that must go after `node`'s ports changed to
/// `inlets` and `outlets`, in cable order.
pub fn invalid_port_edges(wires: &[Wire], node: usize, inlets: usize, outlets: usize) -> (r: Vec<usize>)
    ensures
        r@ == wires@.filter(|w: Wire| port_out_of_range(w, node, inlets, outlets)).map_values(|w: Wire| w.id),
{
    let mut out: Vec<usize> = Vec::new();
    let mut i: usize = 0;
    while i < wires.len()
        invariant
            i <= wires@.len(),
            out@ == wires@.subrange(0, i as int).filter(|w: Wire| port_out_of_range(w, node, inlets, outlets)).map_values(|w: Wire| w.id),
        decreases wires@.len() - i,
    {
        let w = wires[i];
        proof {
            let s0 = wires@.subrange(0, i as int);
            assert(wires@.subrange(0, i as int + 1) =~= s0.push(w));
            let keep = |w: Wire| port_out_of_range(w, node, inlets, outlets);
            s0.lemma_filter_push(w, keep);
            let f = s0.filter(keep);
            assert(f.push(w).map_values(|w: Wire| w.id) =~= f.map_values(|w: Wire| w.id).push(w.id));
        }
        if (w.from == node && w.from_port >= outlets) || (w.to == node && w.to_port >= inlets) {
            out.push(w.id);
        }
        i = i + 1;
    }
    proof {
        assert(wires@.subrange(0, wires@.len() as int) =~= wires@);
    }
    out
}

/// The value kept for `k` in the association list `m`: that of its first entry.
pub open spec fn lookup<K, V>(m: Seq<(K, V)>, k: K) -> Option<V>
    decreases m.len(),
{
    if m.len() == 0 {
        None
    } else {
        match lookup(m.drop_last(), k) {
            Some(v) => Some(v),
            None => if m.last().0 == k {
                Some(m.last().1)
            } else {
                None
            },
        }
    }
}

proof fn lemma_lookup_prefix<K, V>(m: Seq<(K, V)>, j: int, k: K)
    requires
        0 <= j <= m.len(),
        lookup(m.subrange(0, j), k) is Some,
    ensures
        lookup(m, k) == lookup(m.subrange(0, j), k),
    decreases m.len() - j,
{
    if j < m.len() {
        assert(m.subrange(0, j + 1).drop_last() =~= m.subrange(0, j));
        lemma_lookup_prefix(m, j + 1, k);
    } else {
        assert(m.subrange(0, j) =~= m);
    }
}

fn lookup_node(m: &[(usize, usize)], k: usize) -> (r: Option<usize>)
    ensures
        r == lookup(m@, k),
{
    let mut i: usize = 0;
    while i < m.len()
        invariant
            i <= m@.len(),
            lookup(m@.subrange(0, i as int), k) is None,
        decreases m@.len() - i,
    {
        proof {
            assert(m@.subrange(0, i as int + 1).drop_last() =~= m@.subrange(0, i as int));
        }
        if m[i].0 == k {
            proof {
                lemma_lookup_prefix(m@, i as int + 1, k);
            }
            return Some(m[i].1);
        }
        i = i + 1;
    }
    proof {
        assert(m@.subrange(0, m@.len() as int) =~= m@);
    }
    None
}

fn lookup_hex(m: &[(u8, u8)], k: u8) -> (r: Option<u8>)
    ensures
        r == lookup(m@, k),
{
    let mut i: usize = 0;
    while i < m.len()
        invariant
            i <= m@.len(),
            lookup(m@.subrange(0, i as int), k) is None,
        decreases m@.len() - i,
    {
        proof {
            assert(m@.subrange(0, i as int + 1).drop_last() =~= m@.subrange(0, i as int));
        }
        if m[i].0 == k {
            proof {
                lemma_lookup_prefix(m@, i as int + 1, k);
            }
            return Some(m[i].1);
        }
        i = i + 1;
    }
    proof {
        assert(m@.subrange(0, m@.len() as int) =~= m@);
    }
    None
}

/// A cable between copies: outlet `.1` of `.0` to inlet `.3` of `.2`.
pub type Connection = (usize, usize, usize, usize);

/// The cables of a copy: each cable of `wires` whose two ends were copied
/// (`id_map` maps each copied node to its copy), moved to the copies, in
/// cable order, leaving out one that repeats an earlier copy.
pub open spec fn copied_connections(wires: Seq<Wire>, id_map: Seq<(usize, usize)>) -> Seq<Connection>
    decreases wires.len(),
{
    if wires.len() == 0 {
        Seq::empty()
    } else {
        let prev = copied_connections(wires.drop_last(), id_map);
        let w = wires.last();
        match (lookup(id_map, w.from), lookup(id_map, w.to)) {
            (Some(f), Some(t)) => {
                let c = (f, w.from_port, t, w.to_port);
                if prev.contains(c) {
                    prev
                } else {
                    prev.push(c)
                }
            },
            _ => prev,
        }
    }
}

fn contains_connection(cs: &Vec<Connection>, c: Connection) -> (r: bool)
    ensures
        r == cs@.contains(c),
{
    let mut i: usize = 0;
    while i < cs.len()
        invariant
            i <= cs@.len(),
            forall|k: int| 0 <= k < i ==> cs@[k] != c,
        decreases cs@.len() - i,
    {
        let d = cs[i];
        if d.0 == c.0 && d.1 == c.1 && d.2 == c.2 && d.3 == c.3 {
            return true;
        }
        i = i + 1;
    }
    false
}

/// The cables to add for a copy of nodes (see [`copied_connections`]).
pub fn copy_connections(wires: &[Wire], id_map: &[(usize, usize)]) -> (r: Vec<Connection>)
    ensures
        r@ == copied_connections(wires@, id_map@),
{
    let mut out: Vec<Connection> = Vec::new();
    let mut i: usize = 0;
    while i < wires.len()
        invariant
            i <= wires@.len(),
            out@ == copied_connections(wires@.subrange(0, i as int), id_map@),
        decreases wires@.len() - i,
    {
        let w = wires[i];
        proof {
            assert(wires@.subrange(0, i as int + 1).drop_last() =~= wires@.subrange(0, i as int));
        }
        let f = lookup_node(id_map, w.from);
        let t = lookup_node(id_map, w.to);
        match (f, t) {
            (Some(f), Some(t)) => {
                let c: Connection = (f, w.from_port, t, w.to_port);
                if !contains_connection(&out, c) {
                    out.push(c);
                }
            },
            _ => {},
        }
        i = i + 1;
    }
    proof {
        assert(wires@.subrange(0, wires@.len() as int) =~= wires@);
    }
    out
}

/// Delay pairs among copies: each pair of `pairs` whose two nodes were
/// copied, moved to the copies, in order.
pub open spec fn copied_pairs(pairs: Seq<(usize, usize)>, id_map: Seq<(usize, usize)>) -> Seq<(usize, usize)>
    decreases pairs.len(),
{
    if pairs.len() == 0 {
        Seq::empty()
    } else {
        let prev = copied_pairs(pairs.drop_last(), id_map);
        let p = pairs.last();
        match (lookup(id_map, p.0), lookup(id_map, p.1)) {
            (Some(a), Some(b)) => prev.push((a, b)),
            _ => prev,
        }
    }
}

/// The delay pairs to register for a copy of nodes (see [`copied_pairs`]).
pub fn copy_delay_pairs(pairs: &[(usize, usize)], id_map: &[(usize, usize)]) -> (r: Vec<(usize, usize)>)
    ensures
        r@ == copied_pairs(pairs@, id_map@),
{
    let mut out: Vec<(usize, usize)> = Vec::new();
    let mut i: usize = 0;
    while i < pairs.len()
        invariant
            i <= pairs@.len(),
            out@ == copied_pairs(pairs@.subrange(0, i as int), id_map@),
        decreases pairs@.len() - i,
    {
        let p = pairs[i];
        proof {
            assert(pairs@.subrange(0, i as int + 1).drop_last() =~= pairs@.subrange(0, i as int));
        }
        let a = lookup_node(id_map, p.0);
        let b = lookup_node(id_map, p.1);
        match (a, b) {
            (Some(a), Some(b)) => {
                out.push((a, b));
            },
            _ => {},
        }
        i = i + 1;
    }
    proof {
        assert(pairs@.subrange(0, pairs@.len() as int) =~= pairs@);
    }
    out
}

/// A copied object's signal id: its new id where `remap` has one for it,
/// else unchanged.
pub fn remap_signal_hex(id: Option<u8>, remap: &[(u8, u8)]) -> (r: Option<u8>)
    ensures
        r == (match id {
            Some(old) => match lookup(remap@, old) {
                Some(new) => Some(new),
                None => id,
            },
            None => None,
        }),
{
    match id {
        Some(old) => match lookup_hex(remap, old) {
            Some(new) => Some(new),
            None => id,
        },
        None => None,
    }
}

/// The distinct signal ids among `hexes`, in order of first appearance.
pub open spec fn distinct_hexes(hexes: Seq<Option<u8>>) -> Seq<u8>
    decreases hexes.len(),
{
    if hexes.len() == 0 {
        Seq::empty()
    } else {
        let prev = distinct_hexes(hexes.drop_last());
        match hexes.last() {
            Some(h) => if prev.contains(h) {
                prev
            } else {
                prev.push(h)
            },
            None => prev,
        }
    }
}

proof fn lemma_lookup_keys(m: Seq<(u8, u8)>, keys: Seq<u8>, k: u8)
    requires
        m.len() == keys.len(),
        forall|j: int| 0 <= j < m.len() ==> #[trigger] m[j].0 == keys[j],
    ensures
        (lookup(m, k) is Some) == keys.contains(k),
    decreases m.len(),
{
    if m.len() > 0 {
        lemma_lookup_keys(m.drop_last(), keys.drop_last(), k);
        assert(keys.drop_last().push(keys.last()) =~= keys);
        if keys.contains(k) && !keys.drop_last().contains(k) {
            assert(keys.last() == k);
        }
    }
}

/// New signal ids for a copy of nodes whose signal ids are `hexes` (in node
/// order): one entry per distinct id, in order of first appearance, each
/// drawn at random among the ids not in `used` (the ids in the patch); a new
/// id is free whenever some id is free. Two old ids may draw the same new id.
pub fn plan_hex_remap(hexes: &[Option<u8>], used: &HashSet<u8>) -> (r: Vec<(u8, u8)>)
    ensures
        r@.len() == distinct_hexes(hexes@).len(),
        forall|j: int| 0 <= j < r@.len() ==> #[trigger] r@[j].0 == distinct_hexes(hexes@)[j],
        forall|j: int| 0 <= j < r@.len() ==> (exists|x: u8| !used@.contains(x)) ==> !used@.contains(#[trigger] r@[j].1),
{
    let mut out: Vec<(u8, u8)> = Vec::new();
    let mut i: usize = 0;
    while i < hexes.len()
        invariant
            i <= hexes@.len(),
            out@.len() == distinct_hexes(hexes@.subrange(0, i as int)).len(),
            forall|j: int| 0 <= j < out@.len() ==> #[trigger] out@[j].0 == distinct_hexes(hexes@.subrange(0, i as int))[j],
            forall|j: int| 0 <= j < out@.len() ==> (exists|x: u8| !used@.contains(x)) ==> !used@.contains(#[trigger] out@[j].1),
        decreases hexes@.len() - i,
    {
        let ghost prefix = hexes@.subrange(0, i as int);
        proof {
            assert(hexes@.subrange(0, i as int + 1).drop_last() =~= prefix);
        }
        if let Some(h) = hexes[i] {
            let known = lookup_hex(&out, h);
            proof {
                lemma_lookup_keys(out@, distinct_hexes(prefix), h);
            }
            if known.is_none() {
                let new_id = random_unused_delay_hex(used);
                out.push((h, new_id));
            }
        }
        i = i + 1;
    }
    proof {
        assert(hexes@.subrange(0, hexes@.len() as int) =~= hexes@);
    }
    out
}

/// The handle of a cable end: the port it sits on.
pub type HandleKey = (usize, usize, WireEnd);

/// The two handles of each cable, outlet end first, in cable order.
pub open spec fn handle_keys(wires: Seq<Wire>) -> Seq<HandleKey>
    decreases wires.len(),
{
    if wires.len() == 0 {
        Seq::empty()
    } else {
        let w = wires.last();
        handle_keys(wires.drop_last()).push((w.from, w.from_port, WireEnd::Outlet)).push(
            (w.to, w.to_port, WireEnd::Inlet),
        )
    }
}

/// The distinct elements of `s`, in order of first appearance.
pub open spec fn first_occurrences<A>(s: Seq<A>) -> Seq<A>
    decreases s.len(),
{
    if s.len() == 0 {
        Seq::empty()
    } else {
        let prev = first_occurrences(s.drop_last());
        if prev.contains(s.last()) {
            prev
        } else {
            prev.push(s.last())
        }
    }
}

/// Whether cable `w` has an end on the handle `k`.
pub open spec fn touches(w: Wire, k: HandleKey) -> bool {
    match k.2 {
        WireEnd::Outlet => w.from == k.0 && w.from_port == k.1,
        WireEnd::Inlet => w.to == k.0 && w.to_port == k.1,
    }
}

/// The cables whose ends share one port: its node, port and end, and the
/// cables' ids.
#[derive(Clone, Debug)]
pub struct WireHandleGroup {
    pub end: WireEnd,
    pub node: usize,
    pub port: usize,
    pub edge_ids: Vec<usize>,
}

/// Strictly increasing.
pub open spec fn increasing(s: Seq<usize>) -> bool {
    forall|i: int, j: int| 0 <= i < j < s.len() ==> s[i] < s[j]
}

fn insert_sorted(v: &mut Vec<usize>, x: usize)
    requires
        increasing(old(v)@),
    ensures
        increasing(final(v)@),
        forall|y: usize| final(v)@.contains(y) <==> (old(v)@.contains(y) || y == x),
{
    let mut p: usize = 0;
    while p < v.len() && v[p] < x
        invariant
            p <= v@.len(),
            v@ == old(v)@,
            increasing(v@),
            forall|k: int| 0 <= k < p ==> v@[k] < x,
        decreases v@.len() - p,
    {
        p = p + 1;
    }
    if p < v.len() && v[p] == x {
        assert(v@[p as int] == x);
        return;
    }
    let ghost before = v@;
    v.insert(p, x);
    proof {
        assert forall|i: int, j: int| 0 <= i < j < v@.len() implies v@[i] < v@[j] by {
            if j < p {
            } else if i < p && j == p {
            } else if i < p {
                assert(v@[j] == before[j - 1]);
                assert(before[i] < before[j - 1] || i == j - 1);
            } else if i == p {
                assert(v@[j] == before[j - 1]);
                assert(before[p as int] <= before[j - 1]);
            } else {
                assert(v@[i] == before[i - 1]);
                assert(v@[j] == before[j - 1]);
            }
        }
        assert forall|y: usize| v@.contains(y) <==> (before.contains(y) || y == x) by {
            if v@.contains(y) {
                let k = choose|k: int| 0 <= k < v@.len() && v@[k] == y;
                if k < p {
                    assert(before[k] == y);
                } else if k > p {
                    assert(before[k - 1] == y);
                }
            }
            if before.contains(y) {
                let k = choose|k: int| 0 <= k < before.len() && before[k] == y;
                if k < p {
                    assert(v@[k] == y);
                } else {
                    assert(v@[k + 1] == y);
                }
            }
            if y == x {
                assert(v@[p as int] == x);
            }
        }
        assert(before == old(v)@);
        assert(forall|y: usize| v@.contains(y) <==> (old(v)@.contains(y) || y == x));
    }
}

fn contains_key(keys: &Vec<HandleKey>, k: HandleKey) -> (r: bool)
    ensures
        r == keys@.contains(k),
{
    let mut i: usize = 0;
    while i < keys.len()
        invariant
            i <= keys@.len(),
            forall|j: int| 0 <= j < i ==> keys@[j] != k,
        decreases keys@.len() - i,
    {
        let c = keys[i];
        if c.0 == k.0 && c.1 == k.1 && c.2 == k.2 {
            return true;
        }
        i = i + 1;
    }
    false
}

fn push_new_key(keys: &mut Vec<HandleKey>, k: HandleKey)
    ensures
        final(keys)@ == (if old(keys)@.contains(k) { old(keys)@ } else { old(keys)@.push(k) }),
{
    if !contains_key(keys, k) {
        keys.push(k);
    }
}

fn group_ids(wires: &[Wire], k: HandleKey) -> (ids: Vec<usize>)
    ensures
        increasing(ids@),
        forall|id: usize| ids@.contains(id) <==> exists|i: int| 0 <= i < wires@.len() && #[trigger] wires@[i].id == id && touches(wires@[i], k),
{
    let mut ids: Vec<usize> = Vec::new();
    let mut i: usize = 0;
    while i < wires.len()
        invariant
            i <= wires@.len(),
            increasing(ids@),
            forall|id: usize| ids@.contains(id) <==> exists|m: int| 0 <= m < i && #[trigger] wires@[m].id == id && touches(wires@[m], k),
        decreases wires@.len() - i,
    {
        let w = wires[i];
        let hit = match k.2 {
            WireEnd::Outlet => w.from == k.0 && w.from_port == k.1,
            WireEnd::Inlet => w.to == k.0 && w.to_port == k.1,
        };
        let ghost before = ids@;
        if hit {
            insert_sorted(&mut ids, w.id);
        }
        proof {
            assert forall|id: usize| ids@.contains(id) <==> exists|m: int| 0 <= m < i + 1 && #[trigger] wires@[m].id == id && touches(wires@[m], k) by {
                if exists|m: int| 0 <= m < i + 1 && #[trigger] wires@[m].id == id && touches(wires@[m], k) {
                    let m = choose|m: int| 0 <= m < i + 1 && #[trigger] wires@[m].id == id && touches(wires@[m], k);
                    if m < i {
                        assert(before.contains(id));
                    }
                }
            }
        }
        i = i + 1;
    }
    ids
}

/// The handle groups of the cables that show handles: one group per port
/// that such a cable ends on, in order of first appearance (a cable's outlet
/// end before its inlet end), each with the ids of the cables ending there,
/// ascending and without repeats.
pub fn wire_handle_groups(wires: &[Wire]) -> (r: Vec<WireHandleGroup>)
    ensures
        r@.len() == first_occurrences(handle_keys(wires@)).len(),
        forall|j: int| 0 <= j < r@.len() ==> {
            let k = #[trigger] first_occurrences(handle_keys(wires@))[j];
            &&& r@[j].node == k.0
            &&& r@[j].port == k.1
            &&& r@[j].end == k.2
            &&& increasing(r@[j].edge_ids@)
            &&& forall|id: usize| r@[j].edge_ids@.contains(id) <==> exists|i: int| 0 <= i < wires@.len() && #[trigger] wires@[i].id == id && touches(wires@[i], k)
        },
{
    let mut keys: Vec<HandleKey> = Vec::new();
    let mut i: usize = 0;
    while i < wires.len()
        invariant
            i <= wires@.len(),
            keys@ == first_occurrences(handle_keys(wires@.subrange(0, i as int))),
        decreases wires@.len() - i,
    {
        let w = wires[i];
        proof {
            let s = wires@.subrange(0, i as int + 1);
            assert(s.drop_last() =~= wires@.subrange(0, i as int));
            let hk = handle_keys(s);
            let prev = handle_keys(wires@.subrange(0, i as int));
            let a = (w.from, w.from_port, WireEnd::Outlet);
            assert(hk.drop_last() =~= prev.push(a));
            assert(prev.push(a).drop_last() =~= prev);
            assert(hk.last() == (w.to, w.to_port, WireEnd::Inlet));
            assert(prev.push(a).last() == a);
        }
        let ghost k0 = keys@;
        push_new_key(&mut keys, (w.from, w.from_port, WireEnd::Outlet));
        let ghost k1 = keys@;
        push_new_key(&mut keys, (w.to, w.to_port, WireEnd::Inlet));
        proof {
            let s = wires@.subrange(0, i as int + 1);
            let prev = handle_keys(wires@.subrange(0, i as int));
            let a = (w.from, w.from_port, WireEnd::Outlet);
            assert(first_occurrences(prev.push(a)) == k1);
            assert(handle_keys(s) == prev.push(a).push((w.to, w.to_port, WireEnd::Inlet)));
            assert(first_occurrences(handle_keys(s)) == keys@);
        }
        i = i + 1;
    }
    proof {
        assert(wires@.subrange(0, wires@.len() as int) =~= wires@);
    }
    let mut out: Vec<WireHandleGroup> = Vec::new();
    let mut j: usize = 0;
    while j < keys.len()
        invariant
            j <= keys@.len(),
            keys@ == first_occurrences(handle_keys(wires@)),
            out@.len() == j,
            forall|m: int| 0 <= m < j ==> {
                let k = #[trigger] keys@[m];
                &&& out@[m].node == k.0
                &&& out@[m].port == k.1
                &&& out@[m].end == k.2
                &&& increasing(out@[m].edge_ids@)
                &&& forall|id: usize| out@[m].edge_ids@.contains(id) <==> exists|i: int| 0 <= i < wires@.len() && #[trigger] wires@[i].id == id && touches(wires@[i], k)
            },
        decreases keys@.len() - j,
    {
        let k = keys[j];
        let ids = group_ids(wires, k);
        out.push(WireHandleGroup { end: k.2, node: k.0, port: k.1, edge_ids: ids });
        j = j + 1;
    }
    out
}

/// The `[receive]` nodes with signal id `h`, in node order.
pub open spec fn receives_of(nodes: Seq<(usize, ObjectInfo)>, h: u8) -> Seq<usize>
    decreases nodes.len(),
{
    if nodes.len() == 0 {
        Seq::empty()
    } else {
        let prev = receives_of(nodes.drop_last(), h);
        let n = nodes.last();
        if n.1.receive && n.1.signal_hex == Some(h) {
            prev.push(n.0)
        } else {
            prev
        }
    }
}

/// Removing one node: a `[send]` with a signal id takes its `[receive]`
/// nodes with it; then the node itself goes.
pub open spec fn single_removal(nodes: Seq<(usize, ObjectInfo)>, id: usize, info: ObjectInfo) -> Seq<usize> {
    let receives = if info.send && info.signal_hex is Some {
        receives_of(nodes, info.signal_hex->0)
    } else {
        Seq::empty()
    };
    receives.push(id)
}

/// The nodes that deleting `id` removes, in order: nothing when `id` is not
/// a node; else first its delay partner `partner` (when it has one that is
/// another node), then `id`, each with what [`single_removal`] takes along.
pub open spec fn removal_order(nodes: Seq<(usize, ObjectInfo)>, id: usize, partner: Option<usize>) -> Seq<usize> {
    match lookup(nodes, id) {
        None => Seq::empty(),
        Some(info) => {
            let first = match partner {
                Some(p) => if p != id && lookup(nodes, p) is Some {
                    single_removal(nodes, p, lookup(nodes, p)->0)
                } else {
                    Seq::empty()
                },
                None => Seq::empty(),
            };
            first + single_removal(nodes, id, info)
        },
    }
}

fn lookup_info(nodes: &[(usize, ObjectInfo)], k: usize) -> (r: Option<ObjectInfo>)
    ensures
        r == lookup(nodes@, k),
{
    let mut i: usize = 0;
    while i < nodes.len()
        invariant
            i <= nodes@.len(),
            lookup(nodes@.subrange(0, i as int), k) is None,
        decreases nodes@.len() - i,
    {
        proof {
            assert(nodes@.subrange(0, i as int + 1).drop_last() =~= nodes@.subrange(0, i as int));
        }
        if nodes[i].0 == k {
            proof {
                lemma_lookup_prefix(nodes@, i as int + 1, k);
            }
            return Some(nodes[i].1);
        }
        i = i + 1;
    }
    proof {
        assert(nodes@.subrange(0, nodes@.len() as int) =~= nodes@);
    }
    None
}

fn push_single_removal(out: &mut Vec<usize>, nodes: &[(usize, ObjectInfo)], id: usize, info: ObjectInfo)
    ensures
        final(out)@ == old(out)@ + single_removal(nodes@, id, info),
{
    let ghost start = out@;
    if info.send {
        if let Some(h) = info.signal_hex {
            let mut i: usize = 0;
            while i < nodes.len()
                invariant
                    i <= nodes@.len(),
                    out@ == start + receives_of(nodes@.subrange(0, i as int), h),
                decreases nodes@.len() - i,
            {
                proof {
                    assert(nodes@.subrange(0, i as int + 1).drop_last() =~= nodes@.subrange(0, i as int));
                }
                let n = nodes[i];
                if n.1.receive && n.1.signal_hex == Some(h) {
                    out.push(n.0);
                    proof {
                        assert(out@ =~= start + receives_of(nodes@.subrange(0, i as int + 1), h));
                    }
                }
                i = i + 1;
            }
            proof {
                assert(nodes@.subrange(0, nodes@.len() as int) =~= nodes@);
            }
        }
    }
    out.push(id);
    proof {
        assert(out@ =~= start + single_removal(nodes@, id, info));
    }
}

/// The nodes that deleting `id` removes (see [`removal_order`]); `nodes`
/// lists each node with its object facts and `partner` is the delay partner
/// recorded for `id`.
pub fn nodes_to_remove(nodes: &[(usize, ObjectInfo)], id: usize, partner: Option<usize>) -> (r: Vec<usize>)
    ensures
        r@ == removal_order(nodes@, id, partner),
{
    let mut out: Vec<usize> = Vec::new();
    let info = match lookup_info(nodes, id) {
        None => {
            return out;
        },
        Some(info) => info,
    };
    if let Some(p) = partner {
        if p != id {
            if let Some(pinfo) = lookup_info(nodes, p) {
                push_single_removal(&mut out, nodes, p, pinfo);
            }
        }
    }
    let ghost first = out@;
    push_single_removal(&mut out, nodes, id, info);
    proof {
        assert(first + single_removal(nodes@, id, info) == out@);
        assert(Seq::<usize>::empty() + single_removal(nodes@, id, info) =~= single_removal(nodes@, id, info));
    }
    out
}

proof fn lemma_receives_of(nodes: Seq<(usize, ObjectInfo)>, h: u8, k: int)
    requires
        0 <= k < nodes.len(),
        nodes[k].1.receive,
        nodes[k].1.signal_hex == Some(h),
    ensures
        receives_of(nodes, h).contains(nodes[k].0),
    decreases nodes.len(),
{
    if k < nodes.len() - 1 {
        lemma_receives_of(nodes.drop_last(), h, k);
        let prev = receives_of(nodes.drop_last(), h);
        let j = choose|j: int| 0 <= j < prev.len() && prev[j] == nodes[k].0;
        let r = receives_of(nodes, h);
        assert(r[j] == nodes[k].0);
    } else {
        let r = receives_of(nodes, h);
        assert(r[r.len() - 1] == nodes[k].0);
    }
}

/// Law: deleting a `[send]` that has a signal id removes every `[receive]`
/// with that id, and the send itself.
pub proof fn lemma_send_removal_takes_receives(nodes: Seq<(usize, ObjectInfo)>, id: usize, partner: Option<usize>, k: int)
    requires
        lookup(nodes, id) matches Some(info) && info.send && info.signal_hex is Some,
        0 <= k < nodes.len(),
        nodes[k].1.receive,
        nodes[k].1.signal_hex == lookup(nodes, id)->0.signal_hex,
    ensures
        removal_order(nodes, id, partner).contains(nodes[k].0),
        removal_order(nodes, id, partner).contains(id),
{
    let info = lookup(nodes, id)->0;
    let h = info.signal_hex->0;
    lemma_receives_of(nodes, h, k);
    let first = match partner {
        Some(p) => if p != id && lookup(nodes, p) is Some {
            single_removal(nodes, p, lookup(nodes, p)->0)
        } else {
            Seq::empty()
        },
        None => Seq::empty(),
    };
    let own = single_removal(nodes, id, info);
    let rs = receives_of(nodes, h);
    let j = choose|j: int| 0 <= j < rs.len() && rs[j] == nodes[k].0;
    assert(own[j] == nodes[k].0);
    assert((first + own)[first.len() + j] == nodes[k].0);
    assert((first + own)[first.len() + own.len() - 1] == id);
}

/// Every node in `receives_of(nodes, h)` is a `[receive]` node with id `h`.
proof fn lemma_receives_of_members(nodes: Seq<(usize, ObjectInfo)>, h: u8, x: usize)
    requires
        receives_of(nodes, h).contains(x),
    ensures
        exists|k: int|
            0 <= k < nodes.len() && (#[trigger] nodes[k]).0 == x && nodes[k].1.receive && nodes[k].1.signal_hex
                == Some(h),
    decreases nodes.len(),
{
    let d = nodes.drop_last();
    let prev = receives_of(d, h);
    let n = nodes.last();
    if prev.contains(x) {
        lemma_receives_of_members(d, h, x);
        let k = choose|k: int|
            0 <= k < d.len() && (#[trigger] d[k]).0 == x && d[k].1.receive && d[k].1.signal_hex == Some(h);
        assert(nodes[k] == d[k]);
    } else {
        let k = nodes.len() - 1;
        assert(nodes[k] == n);
        if !(n.1.receive && n.1.signal_hex == Some(h)) {
            assert(receives_of(nodes, h) == prev);
        }
        let r = receives_of(nodes, h);
        let j = choose|j: int| 0 <= j < r.len() && r[j] == x;
        if j < prev.len() {
            assert(prev[j] == x);
        }
    }
}

/// The node `s` is a `[send]` with a signal id equal to `hex`.
pub open spec fn send_with_id(nodes: Seq<(usize, ObjectInfo)>, s: usize, hex: Option<u8>) -> bool {
    lookup(nodes, s) matches Some(si) && si.send && si.signal_hex is Some && si.signal_hex == hex
}

/// Law: deleting a node removes the node itself, its delay partner, and
/// besides those only `[receive]` nodes whose signal id is that of a deleted
/// `[send]`.
pub proof fn lemma_removal_takes_only_receives_of_sends(
    nodes: Seq<(usize, ObjectInfo)>,
    id: usize,
    partner: Option<usize>,
    x: usize,
)
    requires
        removal_order(nodes, id, partner).contains(x),
        x != id,
        partner != Some(x),
    ensures
        exists|k: int|
            0 <= k < nodes.len() && (#[trigger] nodes[k]).0 == x && nodes[k].1.receive && (send_with_id(
                nodes,
                id,
                nodes[k].1.signal_hex,
            ) || (partner matches Some(p) && send_with_id(nodes, p, nodes[k].1.signal_hex))),
{
    let info = lookup(nodes, id)->0;
    let own = single_removal(nodes, id, info);
    let first = match partner {
        Some(p) => if p != id && lookup(nodes, p) is Some {
            single_removal(nodes, p, lookup(nodes, p)->0)
        } else {
            Seq::empty()
        },
        None => Seq::empty(),
    };
    let all = removal_order(nodes, id, partner);
    assert(lookup(nodes, id) is Some);
    assert(all == first + own);
    let j = choose|j: int| 0 <= j < all.len() && all[j] == x;
    if j >= first.len() {
        let jj = j - first.len();
        assert(own[jj] == x);
        assert(jj != own.len() - 1);
        assert(info.send && info.signal_hex is Some);
        let h = info.signal_hex->0;
        assert(receives_of(nodes, h)[jj] == x);
        lemma_receives_of_members(nodes, h, x);
    } else {
        let p = partner->0;
        let pinfo = lookup(nodes, p)->0;
        assert(first[j] == x);
        assert(j != first.len() - 1);
        assert(pinfo.send && pinfo.signal_hex is Some);
        let h = pinfo.signal_hex->0;
        assert(receives_of(nodes, h)[j] == x);
        lemma_receives_of_members(nodes, h, x);
    }
}

/// Law: deleting a node removes it, as the last removal, and removes its
/// delay partner when that is another node.
pub proof fn lemma_removal_takes_node_and_partner(nodes: Seq<(usize, ObjectInfo)>, id: usize, partner: Option<usize>)
    ensures
        lookup(nodes, id) is Some ==> removal_order(nodes, id, partner).len() > 0 && removal_order(
            nodes,
            id,
            partner,
        ).last() == id,
        lookup(nodes, id) is Some && (partner matches Some(p) && p != id && lookup(nodes, p) is Some)
            ==> removal_order(nodes, id, partner).contains(partner->0),
{
    if lookup(nodes, id) is Some {
        let all = removal_order(nodes, id, partner);
        if let Some(p) = partner {
            if p != id && lookup(nodes, p) is Some {
                let first = single_removal(nodes, p, lookup(nodes, p)->0);
                assert(all[first.len() - 1] == p);
            }
        }
    }
}

/// Law: deleting a node that is not a `[send]` and has no delay partner
/// removes exactly that node; deleting an id that is not a node removes
/// nothing.
pub proof fn lemma_plain_removal(nodes: Seq<(usize, ObjectInfo)>, id: usize)
    ensures
        lookup(nodes, id) matches Some(info) && !info.send ==> removal_order(nodes, id, None) == seq![id],
        lookup(nodes, id) is None ==> removal_order(nodes, id, None) == Seq::<usize>::empty(),
{
    if lookup(nodes, id) is Some {
        assert(Seq::<usize>::empty() + Seq::<usize>::empty().push(id) =~= seq![id]);
    }
}

/// Whether node `id` can take the keyboard focus: `flags` has an entry for
/// it and the entry is set (the node exists and is not a comment).
pub open spec fn focusable(flags: Seq<bool>, id: usize) -> bool {
    (id as int) < flags.len() && flags[id as int]
}

/// `r` is the first node, row by row and left to right, that can take the
/// focus, or `None` when no node of the rows can.
pub open spec fn first_focusable(rows: Seq<Vec<usize>>, flags: Seq<bool>, r: Option<usize>) -> bool {
    match r {
        Some(x) => exists|i: int, j: int|
            0 <= i < rows.len() && 0 <= j < rows[i]@.len() && #[trigger] rows[i]@[j] == x && focusable(flags, x)
            && (forall|a: int, b: int|
                0 <= a < rows.len() && 0 <= b < rows[a]@.len() && (a < i || (a == i && b < j))
                    ==> !focusable(flags, #[trigger] rows[a]@[b])),
        None => forall|a: int, b: int|
            0 <= a < rows.len() && 0 <= b < rows[a]@.len() ==> !focusable(flags, #[trigger] rows[a]@[b]),
    }
}

/// The first node, row by row and left to right, that can take the focus.
pub fn default_focus(rows: &[Vec<usize>], flags: &[bool]) -> (r: Option<usize>)
    ensures
        first_focusable(rows@, flags@, r),
{
    let mut i: usize = 0;
    while i < rows.len()
        invariant
            i <= rows@.len(),
            forall|a: int, b: int|
                0 <= a < i && 0 <= b < rows@[a]@.len() ==> !focusable(flags@, #[trigger] rows@[a]@[b]),
        decreases rows@.len() - i,
    {
        let row = &rows[i];
        let mut j: usize = 0;
        while j < row.len()
            invariant
                i < rows@.len(),
                row@ == rows@[i as int]@,
                j <= row@.len(),
                forall|a: int, b: int|
                    0 <= a < i && 0 <= b < rows@[a]@.len() ==> !focusable(flags@, #[trigger] rows@[a]@[b]),
                forall|b: int| 0 <= b < j ==> !focusable(flags@, #[trigger] rows@[i as int]@[b]),
            decreases row@.len() - j,
        {
            let x = row[j];
            if x < flags.len() && flags[x] {
                assert(rows@[i as int]@[j as int] == x);
                return Some(x);
            }
            j = j + 1;
        }
        i = i + 1;
    }
    None
}

/// The cable that `w` becomes when its `end` is dropped on port `port` of
/// `node`.
pub open spec fn reattached(w: Wire, end: WireEnd, node: usize, port: usize) -> Connection {
    match end {
        WireEnd::Inlet => (w.from, w.from_port, node, port),
        WireEnd::Outlet => (node, port, w.to, w.to_port),
    }
}

pub open spec fn spec_drop_connections(
    rewire: Option<(WireEnd, Seq<Wire>)>,
    pending: Option<PendingWire>,
    outlet_hit: Option<(usize, usize)>,
    inlet_hit: Option<(usize, usize)>,
) -> Option<Seq<Connection>> {
    match rewire {
        Some((end, wires)) => {
            let hit = match end {
                WireEnd::Inlet => inlet_hit,
                WireEnd::Outlet => outlet_hit,
            };
            match hit {
                Some((n, p)) => Some(wires.map_values(|w: Wire| reattached(w, end, n, p))),
                None => None,
            }
        },
        None => match pending {
            Some(p) => match p.end {
                WireEnd::Outlet => match inlet_hit {
                    Some((n, i)) => Some(seq![(p.node, p.port, n, i)]),
                    None => None,
                },
                WireEnd::Inlet => match outlet_hit {
                    Some((n, o)) => Some(seq![(n, o, p.node, p.port)]),
                    None => None,
                },
            },
            None => None,
        },
    }
}

/// What releasing a dragged cable connects, given the cables being rewired
/// (by which end, if a handle group was picked up), the first pending cable,
/// and the outlet and inlet under the pointer: each rewired cable moved to
/// the port under the pointer, or the pending cable completed; `None` when
/// the release lands on no port of the right kind (the drag is cancelled).
pub fn drop_connections(
    rewire: Option<(WireEnd, &[Wire])>,
    pending: Option<PendingWire>,
    outlet_hit: Option<(usize, usize)>,
    inlet_hit: Option<(usize, usize)>,
) -> (r: Option<Vec<Connection>>)
    ensures
        match r {
            Some(v) => spec_drop_connections(
                match rewire {
                    Some((e, ws)) => Some((e, ws@)),
                    None => None,
                },
                pending,
                outlet_hit,
                inlet_hit,
            ) == Some(v@),
            None => spec_drop_connections(
                match rewire {
                    Some((e, ws)) => Some((e, ws@)),
                    None => None,
                },
                pending,
                outlet_hit,
                inlet_hit,
            ) is None,
        },
{
    match rewire {
        Some((end, wires)) => {
            let hit = match end {
                WireEnd::Inlet => inlet_hit,
                WireEnd::Outlet => outlet_hit,
            };
            match hit {
                Some((n, p)) => {
                    let mut out: Vec<Connection> = Vec::new();
                    let mut i: usize = 0;
                    while i < wires.len()
                        invariant
                            i <= wires@.len(),
                            out@ == wires@.subrange(0, i as int).map_values(|w: Wire| reattached(w, end, n, p)),
                        decreases wires@.len() - i,
                    {
                        let w = wires[i];
                        let c: Connection = match end {
                            WireEnd::Inlet => (w.from, w.from_port, n, p),
                            WireEnd::Outlet => (n, p, w.to, w.to_port),
                        };
                        out.push(c);
                        proof {
                            assert(wires@.subrange(0, i as int + 1).map_values(|w: Wire| reattached(w, end, n, p))
                                =~= wires@.subrange(0, i as int).map_values(|w: Wire| reattached(w, end, n, p)).push(c));
                        }
                        i = i + 1;
                    }
                    proof {
                        assert(wires@.subrange(0, wires@.len() as int) =~= wires@);
                    }
                    Some(out)
                },
                None => None,
            }
        },
        None => match pending {
            Some(p) => match p.end {
                WireEnd::Outlet => match inlet_hit {
                    Some((n, i)) => Some(vec![(p.node, p.port, n, i)]),
                    None => None,
                },
                WireEnd::Inlet => match outlet_hit {
                    Some((n, o)) => Some(vec![(n, o, p.node, p.port)]),
                    None => None,
                },
            },
            None => None,
        },
    }
}

/// What a click on a node's body does.
#[derive(Clone, Copy, Debug, PartialEq, Eq, Structural)]
pub enum NodeClick {
    /// Shift-click: flip the node's selection.
    ToggleSelection,
    /// A click on a node that was already selected: edit its label.
    StartEditing,
    /// Select this node alone.
    SelectOnly,
    /// Nothing happens.
    Nothing,
}

pub open spec fn spec_node_click(
    clicked: bool,
    on_port: bool,
    on_handle: bool,
    drawing: bool,
    press_was_selected: Option<bool>,
    was_selected: bool,
    shift: bool,
    alt: bool,
) -> NodeClick {
    if !clicked || on_port || on_handle || drawing {
        NodeClick::Nothing
    } else if shift {
        NodeClick::ToggleSelection
    } else if alt {
        NodeClick::Nothing
    } else if (match press_was_selected {
        Some(b) => b,
        None => was_selected,
    }) {
        NodeClick::StartEditing
    } else {
        NodeClick::SelectOnly
    }
}

/// The response to a click on a node's body (`clicked`: its label or body
/// was clicked). Clicks on a port or a cable handle, and clicks while a
/// cable is being drawn, do nothing here. Whether the node counts as
/// selected is taken from when the button went down on it
/// (`press_was_selected`, when that was recorded), else from now.
pub fn node_click(
    clicked: bool,
    on_port: bool,
    on_handle: bool,
    drawing: bool,
    press_was_selected: Option<bool>,
    was_selected: bool,
    shift: bool,
    alt: bool,
) -> (r: NodeClick)
    ensures
        r == spec_node_click(clicked, on_port, on_handle, drawing, press_was_selected, was_selected, shift, alt),
{
    if !clicked || on_port || on_handle || drawing {
        return NodeClick::Nothing;
    }
    if shift {
        return NodeClick::ToggleSelection;
    }
    if alt {
        return NodeClick::Nothing;
    }
    let selected_at_press = match press_was_selected {
        Some(b) => b,
        None => was_selected,
    };
    if selected_at_press {
        NodeClick::StartEditing
    } else {
        NodeClick::SelectOnly
    }
}

/// Where a node's box is drawn among the canvas layers.
#[derive(Clone, Copy, Debug, PartialEq, Eq, Structural)]
pub enum NodeLayer {
    Background,
    Middle,
    Foreground,
}

/// How a node's box may be handled this frame.
#[derive(Clone, Copy, Debug, PartialEq, Eq, Structural)]
pub struct NodeBehavior {
    pub movable: bool,
    pub resizable: bool,
    pub layer: NodeLayer,
}

/// How a node's box behaves: comments and the nodes of an alt-drag copy are
/// neither moved nor resized by dragging them; a box being edited moves only
/// with shift and is not resized; only a selected box is resized; copies
/// are drawn in front and comments behind.
pub fn node_behavior(comment: bool, editing: bool, shift: bool, selected: bool, kind: AltDragNodeKind) -> (r: NodeBehavior)
    ensures
        r.movable == (!comment && (!editing || shift) && kind == AltDragNodeKind::Uninvolved),
        r.resizable == (!comment && !editing && kind == AltDragNodeKind::Uninvolved && selected),
        r.layer == (if kind == AltDragNodeKind::Copy {
            NodeLayer::Foreground
        } else if comment {
            NodeLayer::Background
        } else {
            NodeLayer::Middle
        }),
{
    let uninvolved = match kind {
        AltDragNodeKind::Uninvolved => true,
        _ => false,
    };
    let layer = match kind {
        AltDragNodeKind::Copy => NodeLayer::Foreground,
        _ => if comment {
            NodeLayer::Background
        } else {
            NodeLayer::Middle
        },
    };
    NodeBehavior {
        movable: !comment && (!editing || shift) && uninvolved,
        resizable: !comment && !editing && uninvolved && selected,
        layer,
    }
}

/// Keeps the keyboard focus where it is while that node can take it and has
/// a place in the navigation grid (`in_grid`); else moves it to the first
/// node that can.
pub fn ensure_focus(focus: Option<usize>, in_grid: bool, rows: &[Vec<usize>], flags: &[bool]) -> (r: Option<usize>)
    ensures
        (match focus {
            Some(id) => in_grid && focusable(flags@, id),
            None => false,
        }) ==> r == focus,
        !(match focus {
            Some(id) => in_grid && focusable(flags@, id),
            None => false,
        }) ==> first_focusable(rows@, flags@, r),
{
    if let Some(id) = focus {
        if in_grid && id < flags.len() && flags[id] {
            return focus;
        }
    }
    default_focus(rows, flags)
}

} // verus!
