//! Small vocabulary types shared by the layout engine and the editor.

use vstd::prelude::*;

verus! {

/// Semantic hint for layout heuristics; it never changes topology.
#[derive(Clone, Copy, Debug, PartialEq, Eq, Structural, Hash)]
pub enum NodeKind {
    Default,
    Source,
    Sink,
    Param,
    Combine,
    Send,
    Receive,
    DelayIn,
    DelayOut,
    Comment,
}

/// Links `DelayIn` / `DelayOut` (and send / receive) nodes that share no edge.
#[derive(Clone, Copy, Debug, PartialEq, Eq, Structural)]
pub enum DelayPairGroup {
    Hex(u8),
}

/// Primary signal direction of a layout.
#[derive(Clone, Copy, Debug, PartialEq, Eq, Structural)]
pub enum FlowDirection {
    LeftToRight,
    TopToBottom,
}

/// Default `(inlets, outlets)` for a node kind.
pub open spec fn spec_default_port_counts(kind: NodeKind) -> (usize, usize) {
    match kind {
        NodeKind::Source | NodeKind::DelayIn => (0, 1),
        NodeKind::Sink | NodeKind::DelayOut => (1, 0),
        NodeKind::Param => (1, 1),
        NodeKind::Combine => (2, 1),
        NodeKind::Send => (1, 0),
        NodeKind::Receive => (0, 1),
        NodeKind::Comment => (0, 0),
        NodeKind::Default => (1, 1),
    }
}

pub fn default_port_counts(kind: NodeKind) -> (r: (usize, usize))
    ensures
        r == spec_default_port_counts(kind),
{
    match kind {
        NodeKind::Source | NodeKind::DelayIn => (0, 1),
        NodeKind::Sink | NodeKind::DelayOut => (1, 0),
        NodeKind::Param => (1, 1),
        NodeKind::Combine => (2, 1),
        NodeKind::Send => (1, 0),
        NodeKind::Receive => (0, 1),
        NodeKind::Comment => (0, 0),
        NodeKind::Default => (1, 1),
    }
}

} // verus!
