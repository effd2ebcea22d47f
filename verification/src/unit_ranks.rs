//! Rank (layer) assignment for layout units: longest-path ranks over the unit
//! graph, sink pinning, normalisation, and the per-node view of the ranks.

use vstd::prelude::*;

use std::collections::HashMap;

use crate::kinds::NodeKind;
use crate::layout_graph::{LayoutEdge, LayoutGraph, LayoutNodeId};
use crate::ranks::{
    is_topological_order, lemma_order_covers, petgraph_toposort, precedes, toposort_positions,
};
use crate::units::{FanInPair, LayoutUnit, UnitLayout};

verus! {

broadcast use vstd::std_specs::hash::group_hash_axioms;

/// The unit graph: for each graph edge, in edge order, the pair
/// (unit of its source, unit of its target) when the two units differ.
pub open spec fn unit_edge_seq(edges: Seq<LayoutEdge>, ntu: Map<LayoutNodeId, usize>) -> Seq<(usize, usize)>
    decreases edges.len(),
{
    if edges.len() == 0 {
        Seq::empty()
    } else {
        let rest = unit_edge_seq(edges.drop_last(), ntu);
        let e = edges.last();
        if ntu[e.from] != ntu[e.to] {
            rest.push((ntu[e.from], ntu[e.to]))
        } else {
            rest
        }
    }
}

/// Every edge endpoint has a unit, and every recorded unit index is below `n`.
pub open spec fn units_cover_edges(edges: Seq<LayoutEdge>, ntu: Map<LayoutNodeId, usize>, n: nat) -> bool {
    &&& forall|k: int|
        0 <= k < edges.len() ==> ntu.contains_key(#[trigger] edges[k].from) && ntu.contains_key(
            edges[k].to,
        )
    &&& forall|x: LayoutNodeId| #[trigger] ntu.contains_key(x) ==> ntu[x] < n
}

/// Both endpoints of every pair are below `n`.
pub open spec fn pairs_below(es: Seq<(usize, usize)>, n: nat) -> bool {
    forall|k: int| 0 <= k < es.len() ==> #[trigger] es[k].0 < n && es[k].1 < n
}

/// `es` holds the pair `(a, b)`.
pub open spec fn has_unit_edge(es: Seq<(usize, usize)>, a: usize, b: usize) -> bool {
    exists|k: int| 0 <= k < es.len() && #[trigger] es[k] == (a, b)
}

/// Raises the rank of every target of `u` in `es` to at least `base + 1`.
pub open spec fn relax_edges(es: Seq<(usize, usize)>, r: Seq<u32>, u: usize, base: u32) -> Seq<u32>
    decreases es.len(),
{
    if es.len() == 0 {
        r
    } else {
        let r1 = relax_edges(es.drop_last(), r, u, base);
        let e = es.last();
        if e.0 == u && r1[e.1 as int] < base + 1 {
            r1.update(e.1 as int, (base + 1) as u32)
        } else {
            r1
        }
    }
}

/// Ranks after visiting the units of `order` in turn, all starting at 0:
/// visiting `u` raises each target of `u` to at least `rank(u) + 1`.
pub open spec fn relax_order(es: Seq<(usize, usize)>, order: Seq<usize>, n: nat) -> Seq<u32>
    decreases order.len(),
{
    if order.len() == 0 {
        Seq::new(n, |i: int| 0u32)
    } else {
        let r = relax_order(es, order.drop_last(), n);
        let u = order.last();
        relax_edges(es, r, u, r[u as int])
    }
}

/// Units `0..n` in the order of the topological sort, or in index order when
/// the unit graph has a cycle.
pub open spec fn visit_order(n: nat, es: Seq<(usize, usize)>) -> Seq<usize> {
    match petgraph_toposort(n, es) {
        Some(o) => o,
        None => Seq::new(n, |i: int| i as usize),
    }
}

/// The unit graph of `g` under `units`.
pub open spec fn unit_graph(g: LayoutGraph, units: UnitLayout) -> Seq<(usize, usize)> {
    unit_edge_seq(g.edge_seq(), units.node_to_unit@)
}

/// Longest-path ranks of the units, before pinning and normalisation.
pub open spec fn raw_unit_ranks(g: LayoutGraph, units: UnitLayout) -> Seq<u32> {
    let n = units.units@.len();
    let es = unit_graph(g, units);
    relax_order(es, visit_order(n, es), n)
}

/// The unit ends in a sink or a delay input, which are pinned to the last rank.
pub open spec fn tail_pinned(g: LayoutGraph, u: LayoutUnit) -> bool {
    match g.spec_node(u.nodes@.last()) {
        Some(n) => n.kind == NodeKind::Sink || n.kind == NodeKind::DelayIn,
        None => false,
    }
}

/// Largest element, 0 for an empty sequence.
pub open spec fn seq_max(r: Seq<u32>) -> u32
    decreases r.len(),
{
    if r.len() == 0 {
        0
    } else {
        let m = seq_max(r.drop_last());
        if r.last() > m {
            r.last()
        } else {
            m
        }
    }
}

/// Smallest element, 0 for an empty sequence.
pub open spec fn seq_min(r: Seq<u32>) -> u32
    decreases r.len(),
{
    if r.len() == 0 {
        0
    } else if r.len() == 1 {
        r[0]
    } else {
        let m = seq_min(r.drop_last());
        if r.last() < m {
            r.last()
        } else {
            m
        }
    }
}

/// Every rank lowered by the smallest one.
pub open spec fn normalized(r: Seq<u32>) -> Seq<u32> {
    Seq::new(r.len(), |i: int| (r[i] - seq_min(r)) as u32)
}

/// Pinned units moved to the largest rank.
pub open spec fn pin_sinks(r: Seq<u32>, g: LayoutGraph, units: Seq<LayoutUnit>) -> Seq<u32> {
    Seq::new(r.len(), |i: int| if tail_pinned(g, units[i]) { seq_max(r) } else { r[i] })
}

/// The ranks `assign_unit_ranks` returns.
pub open spec fn spec_assign_unit_ranks(g: LayoutGraph, units: UnitLayout, pin_sinks_right: bool) -> Seq<u32> {
    let raw = raw_unit_ranks(g, units);
    if pin_sinks_right {
        normalized(pin_sinks(raw, g, units.units@))
    } else {
        normalized(raw)
    }
}

/// Law: with sinks pinned, a unit whose last node is a sink (`[out]`) or a
/// delay input gets the largest rank of all units.
pub proof fn lemma_sinks_and_delay_inputs_take_last_rank(g: LayoutGraph, units: UnitLayout, i: int, j: int)
    requires
        0 <= i < spec_assign_unit_ranks(g, units, true).len(),
        0 <= j < spec_assign_unit_ranks(g, units, true).len(),
        g.spec_node(units.units@[i].nodes@.last()) matches Some(n) && (n.kind == NodeKind::Sink || n.kind
            == NodeKind::DelayIn),
    ensures
        spec_assign_unit_ranks(g, units, true)[j] <= spec_assign_unit_ranks(g, units, true)[i],
{
    let raw = raw_unit_ranks(g, units);
    let pin = pin_sinks(raw, g, units.units@);
    lemma_seq_max(raw);
    lemma_seq_min(pin);
    assert(pin[i] == seq_max(raw));
    assert(pin[j] <= seq_max(raw));
}

/// Law: the ranks start at 0: some unit has rank 0 (when there is a unit).
pub proof fn lemma_unit_ranks_start_at_zero(g: LayoutGraph, units: UnitLayout, pin_sinks_right: bool)
    ensures
        spec_assign_unit_ranks(g, units, pin_sinks_right).len() > 0 ==> spec_assign_unit_ranks(
            g,
            units,
            pin_sinks_right,
        ).contains(0u32),
{
    let raw = raw_unit_ranks(g, units);
    let r = if pin_sinks_right {
        pin_sinks(raw, g, units.units@)
    } else {
        raw
    };
    lemma_seq_min(r);
    if r.len() > 0 {
        let k = choose|k: int| 0 <= k < r.len() && r[k] == seq_min(r);
        assert(normalized(r)[k] == 0);
    }
}

pub proof fn lemma_seq_max(r: Seq<u32>)
    ensures
        forall|i: int| 0 <= i < r.len() ==> #[trigger] r[i] <= seq_max(r),
        r.len() > 0 ==> r.contains(seq_max(r)),
    decreases r.len(),
{
    if r.len() > 0 {
        lemma_seq_max(r.drop_last());
        assert forall|i: int| 0 <= i < r.len() implies #[trigger] r[i] <= seq_max(r) by {
            if i < r.len() - 1 {
                assert(r.drop_last()[i] == r[i]);
            }
        }
        if r.len() > 1 && r.last() <= seq_max(r.drop_last()) {
            let j = choose|j: int| 0 <= j < r.drop_last().len() && r.drop_last()[j] == seq_max(r.drop_last());
            assert(r[j] == seq_max(r));
        } else {
            assert(r[r.len() - 1] == seq_max(r));
        }
    }
}

pub proof fn lemma_seq_min(r: Seq<u32>)
    ensures
        forall|i: int| 0 <= i < r.len() ==> seq_min(r) <= #[trigger] r[i],
        r.len() > 0 ==> r.contains(seq_min(r)),
    decreases r.len(),
{
    if r.len() > 1 {
        lemma_seq_min(r.drop_last());
        assert forall|i: int| 0 <= i < r.len() implies seq_min(r) <= #[trigger] r[i] by {
            if i < r.len() - 1 {
                assert(r.drop_last()[i] == r[i]);
            }
        }
        if r.last() >= seq_min(r.drop_last()) {
            let j = choose|j: int| 0 <= j < r.drop_last().len() && r.drop_last()[j] == seq_min(r.drop_last());
            assert(r[j] == seq_min(r));
        } else {
            assert(r[r.len() - 1] == seq_min(r));
        }
    } else if r.len() == 1 {
        assert(r[0] == seq_min(r));
    }
}

/// Effect of one visit: a rank changes only where `u` has an edge into it.
proof fn lemma_relax_edges(es: Seq<(usize, usize)>, r: Seq<u32>, u: usize, base: u32)
    requires
        pairs_below(es, r.len()),
        base + 1 <= u32::MAX,
    ensures
        relax_edges(es, r, u, base).len() == r.len(),
        forall|v: usize|
            v < r.len() ==> #[trigger] relax_edges(es, r, u, base)[v as int] == if has_unit_edge(es, u, v)
                && r[v as int] < base + 1 {
                (base + 1) as u32
            } else {
                r[v as int]
            },
    decreases es.len(),
{
    if es.len() > 0 {
        let d = es.drop_last();
        assert forall|k: int| 0 <= k < d.len() implies #[trigger] d[k].0 < r.len() && d[k].1 < r.len() by {
            assert(d[k] == es[k]);
        }
        lemma_relax_edges(d, r, u, base);
        let e = es.last();
        assert(es[es.len() - 1] == e);
        assert forall|v: usize| v < r.len() implies #[trigger] relax_edges(es, r, u, base)[v as int] == if has_unit_edge(es, u, v)
            && r[v as int] < base + 1 {
            (base + 1) as u32
        } else {
            r[v as int]
        } by {
            if has_unit_edge(d, u, v) {
                let k = choose|k: int| 0 <= k < d.len() && #[trigger] d[k] == (u, v);
                assert(es[k] == d[k]);
            }
            if has_unit_edge(es, u, v) && !has_unit_edge(d, u, v) {
                let k = choose|k: int| 0 <= k < es.len() && #[trigger] es[k] == (u, v);
                if k < d.len() {
                    assert(d[k] == es[k]);
                }
            }
        }
    }
}

/// After visiting `k` units, no rank exceeds `k`.
proof fn lemma_relax_order_bound(es: Seq<(usize, usize)>, order: Seq<usize>, n: nat)
    requires
        pairs_below(es, n),
        forall|i: int| 0 <= i < order.len() ==> #[trigger] order[i] < n,
        order.len() < u32::MAX,
        n <= usize::MAX,
    ensures
        relax_order(es, order, n).len() == n,
        forall|v: int| 0 <= v < n ==> #[trigger] relax_order(es, order, n)[v] <= order.len(),
    decreases order.len(),
{
    if order.len() > 0 {
        let o = order.drop_last();
        assert forall|i: int| 0 <= i < o.len() implies #[trigger] o[i] < n by {
            assert(o[i] == order[i]);
        }
        lemma_relax_order_bound(es, o, n);
        let r = relax_order(es, o, n);
        let u = order.last();
        assert(order[order.len() - 1] == u);
        lemma_relax_edges(es, r, u, r[u as int]);
        assert forall|v: int| 0 <= v < n implies #[trigger] relax_order(es, order, n)[v] <= order.len() by {
            assert(relax_edges(es, r, u, r[u as int])[(v as usize) as int] <= order.len());
        }
    }
}

fn unit_edges(graph: &LayoutGraph, units: &UnitLayout) -> (es: Vec<(usize, usize)>)
    requires
        units_cover_edges(graph.edge_seq(), units.node_to_unit@, units.units@.len()),
    ensures
        es@ == unit_graph(*graph, *units),
        pairs_below(es@, units.units@.len()),
        es@.len() <= graph.edge_seq().len(),
{
    let edges = graph.edges();
    let mut es: Vec<(usize, usize)> = Vec::new();
    let mut i: usize = 0;
    while i < edges.len()
        invariant
            0 <= i <= edges@.len(),
            edges@ == graph.edge_seq(),
            units_cover_edges(edges@, units.node_to_unit@, units.units@.len()),
            es@ == unit_edge_seq(edges@.take(i as int), units.node_to_unit@),
            pairs_below(es@, units.units@.len()),
            es@.len() <= i,
        decreases edges.len() - i,
    {
        assert(edges@.take(i + 1).drop_last() =~= edges@.take(i as int));
        assert(edges@.take(i + 1).last() == edges@[i as int]);
        let e = edges[i];
        let a = units.unit_index(e.from);
        let b = units.unit_index(e.to);
        if a != b {
            es.push((a, b));
        }
        i = i + 1;
    }
    assert(edges@.take(i as int) =~= edges@);
    es
}

/// Visits the units in `order`, raising each target of the visited unit to at
/// least one more than the visited unit's rank.
fn relax_in_order(es: &Vec<(usize, usize)>, order: &Vec<usize>, n: usize) -> (r: Vec<u32>)
    requires
        pairs_below(es@, n as nat),
        forall|i: int| 0 <= i < order@.len() ==> #[trigger] order@[i] < n,
        order@.len() < u32::MAX,
    ensures
        r@ == relax_order(es@, order@, n as nat),
{
    let mut r: Vec<u32> = Vec::new();
    let mut i: usize = 0;
    while i < n
        invariant
            0 <= i <= n,
            r@ == Seq::new(i as nat, |j: int| 0u32),
        decreases n - i,
    {
        r.push(0);
        i = i + 1;
        assert(r@ =~= Seq::new(i as nat, |j: int| 0u32));
    }
    assert(order@.take(0) =~= Seq::<usize>::empty());
    let mut k: usize = 0;
    while k < order.len()
        invariant
            0 <= k <= order@.len(),
            order@.len() < u32::MAX,
            pairs_below(es@, n as nat),
            forall|i: int| 0 <= i < order@.len() ==> #[trigger] order@[i] < n,
            r@ == relax_order(es@, order@.take(k as int), n as nat),
        decreases order.len() - k,
    {
        let ghost before = r@;
        proof {
            let o = order@.take(k as int);
            assert forall|i: int| 0 <= i < o.len() implies #[trigger] o[i] < n by {
                assert(o[i] == order@[i]);
            }
            lemma_relax_order_bound(es@, o, n as nat);
        }
        let u = order[k];
        let base = r[u];
        let mut j: usize = 0;
        while j < es.len()
            invariant
                0 <= j <= es@.len(),
                u < n,
                before.len() == n,
                base == before[u as int],
                base < u32::MAX,
                pairs_below(es@, n as nat),
                r@ == relax_edges(es@.take(j as int), before, u, base),
                r@.len() == n,
            decreases es.len() - j,
        {
            assert(es@.take(j + 1).drop_last() =~= es@.take(j as int));
            assert(es@.take(j + 1).last() == es@[j as int]);
            let (a, b) = es[j];
            if a == u && r[b] < base + 1 {
                r.set(b, base + 1);
            }
            j = j + 1;
        }
        assert(es@.take(j as int) =~= es@);
        assert(order@.take(k + 1).drop_last() =~= order@.take(k as int));
        assert(order@.take(k + 1).last() == u);
        k = k + 1;
    }
    assert(order@.take(k as int) =~= order@);
    r
}

/// The largest `rank + 1` over the edges of `es` into `v` whose source is in
/// `done`; 0 when there is none.
pub open spec fn pred_bound_in(es: Seq<(usize, usize)>, done: Set<usize>, r: Seq<u32>, v: usize) -> int
    decreases es.len(),
{
    if es.len() == 0 {
        0
    } else {
        let rest = pred_bound_in(es.drop_last(), done, r, v);
        let e = es.last();
        if e.1 == v && done.contains(e.0) && r[e.0 as int] + 1 > rest {
            r[e.0 as int] + 1
        } else {
            rest
        }
    }
}

/// The largest `rank + 1` over the edges of `es` into `v`; 0 when there is none.
pub open spec fn pred_bound(es: Seq<(usize, usize)>, r: Seq<u32>, v: usize) -> int {
    pred_bound_in(es, Set::full(), r, v)
}

/// The unit graph admits a topological order.
pub open spec fn unit_graph_acyclic(g: LayoutGraph, units: UnitLayout) -> bool {
    exists|o: Seq<usize>| is_topological_order(units.units@.len(), unit_graph(g, units), o)
}

/// The units at positions `0..k` of `o`.
pub open spec fn visited(o: Seq<usize>, k: int) -> Set<usize> {
    Set::new(|x: usize| exists|i: int| 0 <= i < k && o[i] == x)
}

proof fn lemma_pred_bound_ranks_agree(es: Seq<(usize, usize)>, done: Set<usize>, r1: Seq<u32>, r2: Seq<u32>, v: usize)
    requires
        forall|k: int|
            0 <= k < es.len() && done.contains(#[trigger] es[k].0) ==> r1[es[k].0 as int] == r2[es[k].0 as int],
    ensures
        pred_bound_in(es, done, r1, v) == pred_bound_in(es, done, r2, v),
    decreases es.len(),
{
    if es.len() > 0 {
        let d = es.drop_last();
        assert forall|k: int| 0 <= k < d.len() && done.contains(#[trigger] d[k].0) implies r1[d[k].0 as int]
            == r2[d[k].0 as int] by {
            assert(d[k] == es[k]);
        }
        lemma_pred_bound_ranks_agree(d, done, r1, r2, v);
        assert(es[es.len() - 1] == es.last());
    }
}

proof fn lemma_pred_bound_same_done(es: Seq<(usize, usize)>, d1: Set<usize>, d2: Set<usize>, r: Seq<u32>, v: usize)
    requires
        forall|k: int| 0 <= k < es.len() ==> d1.contains(#[trigger] es[k].0) == d2.contains(es[k].0),
    ensures
        pred_bound_in(es, d1, r, v) == pred_bound_in(es, d2, r, v),
    decreases es.len(),
{
    if es.len() > 0 {
        let d = es.drop_last();
        assert forall|k: int| 0 <= k < d.len() implies d1.contains(#[trigger] d[k].0) == d2.contains(d[k].0) by {
            assert(d[k] == es[k]);
        }
        lemma_pred_bound_same_done(d, d1, d2, r, v);
        assert(es[es.len() - 1] == es.last());
    }
}

proof fn lemma_pred_bound_insert(es: Seq<(usize, usize)>, done: Set<usize>, r: Seq<u32>, u: usize, v: usize)
    ensures
        pred_bound_in(es, done.insert(u), r, v) == if has_unit_edge(es, u, v) && r[u as int] + 1
            > pred_bound_in(es, done, r, v) {
            r[u as int] + 1
        } else {
            pred_bound_in(es, done, r, v)
        },
        pred_bound_in(es, done, r, v) >= 0,
    decreases es.len(),
{
    if es.len() > 0 {
        let d = es.drop_last();
        lemma_pred_bound_insert(d, done, r, u, v);
        let e = es.last();
        assert(es[es.len() - 1] == e);
        if has_unit_edge(d, u, v) {
            let k = choose|k: int| 0 <= k < d.len() && #[trigger] d[k] == (u, v);
            assert(es[k] == d[k]);
        }
        if has_unit_edge(es, u, v) && !has_unit_edge(d, u, v) {
            let k = choose|k: int| 0 <= k < es.len() && #[trigger] es[k] == (u, v);
            if k < d.len() {
                assert(d[k] == es[k]);
            }
        }
    }
}

/// An edge `(a, b)` with `a` done bounds `b` by `rank(a) + 1`.
proof fn lemma_pred_bound_edge(es: Seq<(usize, usize)>, done: Set<usize>, r: Seq<u32>, k: int)
    requires
        0 <= k < es.len(),
        done.contains(es[k].0),
    ensures
        pred_bound_in(es, done, r, es[k].1) >= r[es[k].0 as int] + 1,
    decreases es.len(),
{
    let d = es.drop_last();
    if k < es.len() - 1 {
        assert(d[k] == es[k]);
        lemma_pred_bound_edge(d, done, r, k);
    } else {
        lemma_pred_bound_insert(d, done, r, 0, 0);
    }
}

/// Without an edge from a done unit into `v`, the bound is 0.
proof fn lemma_pred_bound_none(es: Seq<(usize, usize)>, done: Set<usize>, r: Seq<u32>, v: usize)
    requires
        forall|k: int| 0 <= k < es.len() && #[trigger] es[k].1 == v ==> !done.contains(es[k].0),
    ensures
        pred_bound_in(es, done, r, v) == 0,
    decreases es.len(),
{
    if es.len() > 0 {
        let d = es.drop_last();
        assert forall|k: int| 0 <= k < d.len() && #[trigger] d[k].1 == v implies !done.contains(d[k].0) by {
            assert(d[k] == es[k]);
        }
        lemma_pred_bound_none(d, done, r, v);
        assert(es[es.len() - 1] == es.last());
    }
}

/// Visiting the first `k` units of a topological order leaves every rank
/// equal to its bound over the visited units.
proof fn lemma_relax_topo(es: Seq<(usize, usize)>, o: Seq<usize>, n: nat, k: int)
    requires
        is_topological_order(n, es, o),
        pairs_below(es, n),
        n < u32::MAX,
        n <= usize::MAX,
        0 <= k <= n,
    ensures
        relax_order(es, o.take(k), n).len() == n,
        forall|v: usize|
            v < n ==> #[trigger] relax_order(es, o.take(k), n)[v as int] == pred_bound_in(
                es,
                visited(o, k),
                relax_order(es, o.take(k), n),
                v,
            ),
    decreases k,
{
    let ok = o.take(k);
    assert forall|i: int| 0 <= i < ok.len() implies #[trigger] ok[i] < n by {
        assert(ok[i] == o[i]);
    }
    lemma_relax_order_bound(es, ok, n);
    if k == 0 {
        assert forall|v: usize| v < n implies #[trigger] relax_order(es, o.take(k), n)[v as int] == pred_bound_in(
            es,
            visited(o, k),
            relax_order(es, o.take(k), n),
            v,
        ) by {
            lemma_pred_bound_none(es, visited(o, k), relax_order(es, ok, n), v);
        }
    } else {
        let prev = o.take(k - 1);
        lemma_relax_topo(es, o, n, k - 1);
        assert(ok.drop_last() =~= prev);
        let u = o[k - 1];
        assert(ok.last() == u);
        let r = relax_order(es, prev, n);
        assert forall|i: int| 0 <= i < prev.len() implies #[trigger] prev[i] < n by {
            assert(prev[i] == o[i]);
        }
        lemma_relax_order_bound(es, prev, n);
        let r2 = relax_edges(es, r, u, r[u as int]);
        assert(relax_order(es, ok, n) == r2);
        lemma_relax_edges(es, r, u, r[u as int]);
        let dk = visited(o, k);
        let dp = visited(o, k - 1);
        assert(dk =~= dp.insert(u));
        // Targets of `u` come after `u` in the order, so no visited rank moved.
        assert forall|kk: int| 0 <= kk < es.len() && dk.contains(#[trigger] es[kk].0) implies r2[es[kk].0 as int]
            == r[es[kk].0 as int] by {
            let w = es[kk].0;
            if has_unit_edge(es, u, w) {
                let j = choose|j: int| 0 <= j < es.len() && #[trigger] es[j] == (u, w);
                assert(precedes(o, es[j].0, es[j].1));
                let (a, b) = choose|a: int, b: int| 0 <= a < b < o.len() && o[a] == u && o[b] == w;
                let c = choose|c: int| 0 <= c < k && o[c] == w;
                assert(o.no_duplicates());
                assert(a == k - 1);
                assert(b == c);
            }
        }
        assert forall|v: usize| v < n implies #[trigger] r2[v as int] == pred_bound_in(es, dk, r2, v) by {
            lemma_pred_bound_ranks_agree(es, dk, r2, r, v);
            lemma_pred_bound_insert(es, dp, r, u, v);
        }
    }
}

/// What the ranks satisfy once the units are visited in a topological order
/// `o`: unpinned and normalised they are the longest-path layers, and every
/// unit edge from an unpinned unit rises in rank.
proof fn lemma_rank_facts(
    g: LayoutGraph,
    units: UnitLayout,
    pin_sinks_right: bool,
    es: Seq<(usize, usize)>,
    o: Seq<usize>,
)
    requires
        es == unit_graph(g, units),
        is_topological_order(units.units@.len(), es, o),
        pairs_below(es, units.units@.len()),
        units.units@.len() < u32::MAX,
        units.units@.len() <= usize::MAX,
    ensures
        ({
            let n = units.units@.len();
            let raw = relax_order(es, o, n);
            let out = if pin_sinks_right {
                normalized(pin_sinks(raw, g, units.units@))
            } else {
                normalized(raw)
            };
            &&& !pin_sinks_right ==> out == raw
            &&& forall|v: usize| v < n ==> #[trigger] raw[v as int] == pred_bound(es, raw, v)
            &&& forall|k: int|
                0 <= k < es.len() && !(pin_sinks_right && tail_pinned(g, units.units@[es[k].0 as int]))
                    ==> out[#[trigger] es[k].0 as int] < out[es[k].1 as int]
        }),
{
    let n = units.units@.len();
    let raw = relax_order(es, o, n);
    assert(o.take(n as int) =~= o);
    lemma_relax_topo(es, o, n, n as int);
    lemma_order_covers(n, es, o);
    assert forall|v: usize| v < n implies #[trigger] raw[v as int] == pred_bound(es, raw, v) by {
        assert forall|k: int| 0 <= k < es.len() implies visited(o, n as int).contains(#[trigger] es[k].0)
            == Set::<usize>::full().contains(es[k].0) by {
            assert(o.contains(es[k].0));
        }
        lemma_pred_bound_same_done(es, visited(o, n as int), Set::full(), raw, v);
    }
    assert forall|k: int| 0 <= k < es.len() implies raw[#[trigger] es[k].0 as int] < raw[es[k].1 as int] by {
        lemma_pred_bound_edge(es, Set::full(), raw, k);
    }
    lemma_seq_min(raw);
    lemma_seq_max(raw);
    if n > 0 {
        // The first unit of the order has no predecessor, so its rank is 0.
        let first = o[0];
        assert forall|k: int| 0 <= k < es.len() && #[trigger] es[k].1 == first implies !Set::<usize>::full().contains(
            es[k].0,
        ) by {
            assert(precedes(o, es[k].0, es[k].1));
            let (a, b) = choose|a: int, b: int| 0 <= a < b < o.len() && o[a] == es[k].0 && o[b] == es[k].1;
            assert(o.no_duplicates());
        }
        lemma_pred_bound_none(es, Set::full(), raw, first);
        assert(raw[first as int] == 0);
        assert(seq_min(raw) == 0);
    }
    assert(!pin_sinks_right ==> normalized(raw) =~= raw);
    let p = pin_sinks(raw, g, units.units@);
    lemma_seq_min(p);
}

fn min_of(r: &[u32]) -> (m: u32)
    requires
        r@.len() > 0,
    ensures
        m == seq_min(r@),
{
    let mut m = r[0];
    let mut i: usize = 1;
    assert(r@.take(1).len() == 1);
    while i < r.len()
        invariant
            1 <= i <= r@.len(),
            m == seq_min(r@.take(i as int)),
        decreases r.len() - i,
    {
        assert(r@.take(i + 1).drop_last() =~= r@.take(i as int));
        assert(r@.take(i + 1).last() == r@[i as int]);
        if r[i] < m {
            m = r[i];
        }
        i = i + 1;
    }
    assert(r@.take(i as int) =~= r@);
    m
}

fn max_of(r: &[u32]) -> (m: u32)
    ensures
        m == seq_max(r@),
{
    let mut m: u32 = 0;
    let mut i: usize = 0;
    assert(r@.take(0).len() == 0);
    while i < r.len()
        invariant
            0 <= i <= r@.len(),
            m == seq_max(r@.take(i as int)),
        decreases r.len() - i,
    {
        assert(r@.take(i + 1).drop_last() =~= r@.take(i as int));
        assert(r@.take(i + 1).last() == r@[i as int]);
        if r[i] > m {
            m = r[i];
        }
        i = i + 1;
    }
    assert(r@.take(i as int) =~= r@);
    m
}

/// Shifts all ranks down so that the smallest becomes 0.
pub fn normalize_unit_ranks(ranks: &mut [u32])
    ensures
        final(ranks)@ == normalized(old(ranks)@),
{
    let ghost orig = ranks@;
    if ranks.len() == 0 {
        assert(normalized(orig) =~= orig);
        return;
    }
    let min = min_of(ranks);
    proof {
        lemma_seq_min(orig);
    }
    let mut i: usize = 0;
    while i < ranks.len()
        invariant
            0 <= i <= ranks@.len(),
            ranks@.len() == orig.len(),
            min == seq_min(orig),
            forall|j: int| 0 <= j < orig.len() ==> min <= #[trigger] orig[j],
            forall|j: int| 0 <= j < i ==> #[trigger] ranks@[j] == orig[j] - min,
            forall|j: int| i <= j < ranks@.len() ==> #[trigger] ranks@[j] == orig[j],
        decreases ranks.len() - i,
    {
        ranks[i] = ranks[i] - min;
        i = i + 1;
    }
    assert(ranks@ =~= normalized(orig));
}

/// Ranks for the units: each unit is ranked one past the highest-ranked unit
/// that feeds it (0 when none), visiting units in topological order (index
/// order when the unit graph has a cycle); with `pin_sinks_right`, units that
/// end in a sink or delay input are moved to the largest rank; finally all
/// ranks are shifted so that the smallest is 0. When the unit graph is acyclic,
/// every unit edge from an unpinned unit goes to a strictly higher rank.
pub fn assign_unit_ranks(graph: &LayoutGraph, units: &UnitLayout, pin_sinks_right: bool) -> (ranks: Vec<u32>)
    requires
        units.units@.len() < u32::MAX,
        graph.edge_seq().len() < u32::MAX,
        units_cover_edges(graph.edge_seq(), units.node_to_unit@, units.units@.len()),
        pin_sinks_right ==> forall|i: int|
            0 <= i < units.units@.len() ==> (#[trigger] units.units@[i]).nodes@.len() >= 1,
    ensures
        ranks@ == spec_assign_unit_ranks(*graph, *units, pin_sinks_right),
        unit_graph_acyclic(*graph, *units) && !pin_sinks_right ==> forall|v: usize|
            v < units.units@.len() ==> #[trigger] ranks@[v as int] == pred_bound(
                unit_graph(*graph, *units),
                ranks@,
                v,
            ),
        unit_graph_acyclic(*graph, *units) ==> forall|k: int|
            0 <= k < unit_graph(*graph, *units).len() && !(pin_sinks_right && tail_pinned(
                *graph,
                units.units@[unit_graph(*graph, *units)[k].0 as int],
            )) ==> ranks@[#[trigger] unit_graph(*graph, *units)[k].0 as int] < ranks@[unit_graph(
                *graph,
                *units,
            )[k].1 as int],
{
    let n = units.units.len();
    let es = unit_edges(graph, units);
    let topo = toposort_positions(n, &es);
    proof {
        if topo is Some {
            lemma_rank_facts(*graph, *units, pin_sinks_right, es@, topo->0@);
        } else {
            assert(!unit_graph_acyclic(*graph, *units));
        }
    }
    let order = match topo {
        Some(o) => o,
        None => {
            let mut o: Vec<usize> = Vec::new();
            let mut i: usize = 0;
            while i < n
                invariant
                    0 <= i <= n,
                    o@ == Seq::new(i as nat, |j: int| j as usize),
                decreases n - i,
            {
                o.push(i);
                i = i + 1;
                assert(o@ =~= Seq::new(i as nat, |j: int| j as usize));
            }
            o
        },
    };
    assert(order@ == visit_order(n as nat, es@));
    let mut ranks = relax_in_order(&es, &order, n);
    let ghost raw = ranks@;
    assert(raw == raw_unit_ranks(*graph, *units));
    if pin_sinks_right {
        let mx = max_of(ranks.as_slice());
        proof {
            lemma_relax_order_bound(es@, order@, n as nat);
        }
        let mut i: usize = 0;
        while i < n
            invariant
                0 <= i <= n,
                n == units.units@.len(),
                raw.len() == n,
                mx == seq_max(raw),
                ranks@.len() == n,
                forall|i: int|
                    0 <= i < units.units@.len() ==> (#[trigger] units.units@[i]).nodes@.len() >= 1,
                forall|j: int| 0 <= j < i ==> #[trigger] ranks@[j] == pin_sinks(raw, *graph, units.units@)[j],
                forall|j: int| i <= j < n ==> #[trigger] ranks@[j] == raw[j],
            decreases n - i,
        {
            let t = units.units[i].tail();
            let pinned = match graph.node(t) {
                Some(nd) => matches!(nd.kind, NodeKind::Sink | NodeKind::DelayIn),
                None => false,
            };
            if pinned {
                ranks.set(i, mx);
            }
            i = i + 1;
        }
        assert(ranks@ =~= pin_sinks(raw, *graph, units.units@));
    }
    normalize_unit_ranks(ranks.as_mut_slice());
    ranks
}

/// The rank recorded for unit `i`, 0 past the end.
pub open spec fn rank_at(r: Seq<u32>, i: int) -> u32 {
    if 0 <= i < r.len() {
        r[i]
    } else {
        0
    }
}

/// `x` belongs to unit `i` and to no later unit before `end`.
pub open spec fn last_unit_before(units: Seq<LayoutUnit>, x: LayoutNodeId, i: int, end: int) -> bool {
    &&& 0 <= i < end
    &&& units[i].nodes@.contains(x)
    &&& forall|j: int| i < j < end ==> !(#[trigger] units[j].nodes@.contains(x))
}

/// `x` belongs to unit `i` and to no later unit.
pub open spec fn last_unit_of(units: Seq<LayoutUnit>, x: LayoutNodeId, i: int) -> bool {
    i < units.len() && last_unit_before(units, x, i, units.len() as int)
}

/// Every node of every unit mapped to its unit's rank (0 when `unit_ranks`
/// has no entry for the unit); a node listed by several units keeps the rank
/// of the last of them.
pub fn unit_ranks_to_node_ranks(units: &UnitLayout, unit_ranks: &[u32]) -> (ranks: HashMap<LayoutNodeId, u32>)
    ensures
        forall|x: LayoutNodeId|
            #[trigger] ranks@.contains_key(x) <==> exists|i: int|
                0 <= i < units.units@.len() && (#[trigger] units.units@[i]).nodes@.contains(x),
        forall|x: LayoutNodeId, i: int|
            #[trigger] last_unit_of(units.units@, x, i) ==> ranks@[x] == rank_at(unit_ranks@, i),
{
    let mut ranks: HashMap<LayoutNodeId, u32> = HashMap::new();
    let ghost us = units.units@;
    let mut i: usize = 0;
    while i < units.units.len()
        invariant
            0 <= i <= us.len(),
            us == units.units@,
            forall|x: LayoutNodeId|
                #[trigger] ranks@.contains_key(x) <==> exists|k: int| 0 <= k < i && (#[trigger] us[k]).nodes@.contains(x),
            forall|x: LayoutNodeId, k: int|
                #[trigger] last_unit_before(us, x, k, i as int) ==> ranks@[x] == rank_at(unit_ranks@, k)
                    && ranks@.contains_key(x),
        decreases us.len() - i,
    {
        let rank = if i < unit_ranks.len() {
            unit_ranks[i]
        } else {
            0
        };
        let nodes = &units.units[i].nodes;
        let ghost before = ranks@;
        let mut j: usize = 0;
        while j < nodes.len()
            invariant
                0 <= j <= nodes@.len(),
                0 <= i < us.len(),
                us == units.units@,
                nodes@ == us[i as int].nodes@,
                rank == rank_at(unit_ranks@, i as int),
                forall|x: LayoutNodeId|
                    #[trigger] ranks@.contains_key(x) <==> before.contains_key(x) || nodes@.take(j as int).contains(x),
                forall|x: LayoutNodeId|
                    #[trigger] ranks@.contains_key(x) && !nodes@.take(j as int).contains(x) ==> ranks@[x] == before[x],
                forall|x: LayoutNodeId| nodes@.take(j as int).contains(x) ==> #[trigger] ranks@[x] == rank,
            decreases nodes.len() - j,
        {
            let ghost tj = nodes@.take(j as int);
            let ghost mid = ranks@;
            let ghost y = nodes@[j as int];
            ranks.insert(nodes[j], rank);
            j = j + 1;
            proof {
                let tn = nodes@.take(j as int);
                assert(tn =~= tj.push(y));
                assert(tn[j - 1] == y);
                assert forall|x: LayoutNodeId| tn.contains(x) <==> tj.contains(x) || x == y by {
                    if tj.contains(x) {
                        let q = choose|q: int| 0 <= q < tj.len() && tj[q] == x;
                        assert(tn[q] == x);
                    }
                    if tn.contains(x) && x != y {
                        let q = choose|q: int| 0 <= q < tn.len() && tn[q] == x;
                        assert(tj[q] == x);
                    }
                }
            }
        }
        assert(nodes@.take(j as int) =~= nodes@);
        i = i + 1;
        proof {
            assert forall|x: LayoutNodeId| #[trigger] ranks@.contains_key(x) <==> exists|k: int|
                0 <= k < i && (#[trigger] us[k]).nodes@.contains(x) by {
                if us[i - 1].nodes@.contains(x) {
                    assert(0 <= i - 1 < i && us[i - 1].nodes@.contains(x));
                }
                if exists|k: int| 0 <= k < i && (#[trigger] us[k]).nodes@.contains(x) {
                    let k = choose|k: int| 0 <= k < i && (#[trigger] us[k]).nodes@.contains(x);
                    if k < i - 1 {
                        assert(before.contains_key(x));
                    }
                }
            }
            assert forall|x: LayoutNodeId, k: int| #[trigger] last_unit_before(us, x, k, i as int) implies ranks@[x]
                == rank_at(unit_ranks@, k) && ranks@.contains_key(x) by {
                if k < i - 1 {
                    assert(!us[i - 1].nodes@.contains(x));
                    assert(last_unit_before(us, x, k, i - 1));
                    assert(before.contains_key(x));
                    assert(!nodes@.take(j as int).contains(x));
                    assert(ranks@.contains_key(x));
                    assert(ranks@[x] == before[x]);
                } else {
                    assert(nodes@.take(j as int).contains(x));
                    assert(ranks@[x] == rank);
                }
            }
        }
    }
    proof {
        assert forall|x: LayoutNodeId, k: int| #[trigger] last_unit_of(units.units@, x, k) implies ranks@[x]
            == rank_at(unit_ranks@, k) by {
            assert(last_unit_before(us, x, k, i as int));
        }
    }
    ranks
}

/// `x - 1`, stopping at 0.
pub open spec fn sat_pred(x: u32) -> u32 {
    if x == 0 {
        0
    } else {
        (x - 1) as u32
    }
}

/// Ranks after moving, pair by pair, both feeders of each fan-in pair one
/// rank above its combiner (the combiner's current rank minus one, at least 0).
pub open spec fn align_pairs(pairs: Seq<FanInPair>, r: Seq<u32>) -> Seq<u32>
    decreases pairs.len(),
{
    if pairs.len() == 0 {
        r
    } else {
        let r1 = align_pairs(pairs.drop_last(), r);
        let p = pairs.last();
        let t = sat_pred(r1[p.combine as int]);
        r1.update(p.left as int, t).update(p.right as int, t)
    }
}

/// Every unit index named by a pair is below `n`.
pub open spec fn pairs_within(pairs: Seq<FanInPair>, n: nat) -> bool {
    forall|k: int|
        0 <= k < pairs.len() ==> (#[trigger] pairs[k]).left < n && pairs[k].right < n && pairs[k].combine < n
}

/// Unit `x` plays a role in pair `p`.
pub open spec fn in_pair(p: FanInPair, x: usize) -> bool {
    p.left == x || p.right == x || p.combine == x
}

/// No unit plays two roles, within a pair or across pairs.
pub open spec fn pairs_disjoint(pairs: Seq<FanInPair>) -> bool {
    &&& forall|k: int|
        0 <= k < pairs.len() ==> (#[trigger] pairs[k]).left != pairs[k].right && pairs[k].left
            != pairs[k].combine && pairs[k].right != pairs[k].combine
    &&& forall|i: int, j: int, x: usize|
        0 <= i < j < pairs.len() && #[trigger] in_pair(pairs[i], x) ==> !#[trigger] in_pair(pairs[j], x)
}

/// With disjoint pairs, each pair's feeders end one rank above its combiner,
/// combiners keep their rank, and units that feed no pair are untouched.
pub proof fn lemma_align_pairs(pairs: Seq<FanInPair>, r: Seq<u32>)
    requires
        pairs_within(pairs, r.len()),
        pairs_disjoint(pairs),
    ensures
        align_pairs(pairs, r).len() == r.len(),
        forall|k: int|
            0 <= k < pairs.len() ==> align_pairs(pairs, r)[(#[trigger] pairs[k]).left as int] == sat_pred(
                r[pairs[k].combine as int],
            ) && align_pairs(pairs, r)[pairs[k].right as int] == sat_pred(r[pairs[k].combine as int])
                && align_pairs(pairs, r)[pairs[k].combine as int] == r[pairs[k].combine as int],
        forall|x: usize|
            x < r.len() && (forall|k: int| 0 <= k < pairs.len() ==> (#[trigger] pairs[k]).left != x && pairs[k].right != x)
                ==> #[trigger] align_pairs(pairs, r)[x as int] == r[x as int],
    decreases pairs.len(),
{
    if pairs.len() > 0 {
        let d = pairs.drop_last();
        let n = pairs.len() - 1;
        assert forall|k: int| 0 <= k < d.len() implies (#[trigger] d[k]).left < r.len() && d[k].right < r.len()
            && d[k].combine < r.len() by {
            assert(d[k] == pairs[k]);
        }
        assert forall|i: int, j: int, x: usize|
            0 <= i < j < d.len() && #[trigger] in_pair(d[i], x) implies !#[trigger] in_pair(d[j], x) by {
            assert(d[i] == pairs[i] && d[j] == pairs[j]);
        }
        assert forall|k: int| 0 <= k < d.len() implies (#[trigger] d[k]).left != d[k].right && d[k].left
            != d[k].combine && d[k].right != d[k].combine by {
            assert(d[k] == pairs[k]);
        }
        lemma_align_pairs(d, r);
        let p = pairs[n];
        assert(pairs.last() == p);
        let g = align_pairs(d, r);
        assert forall|k: int| 0 <= k < d.len() implies (#[trigger] d[k]).left != p.combine && d[k].right != p.combine by {
            assert(d[k] == pairs[k]);
            assert(in_pair(pairs[n], p.combine));
            if d[k].left == p.combine || d[k].right == p.combine {
                assert(in_pair(pairs[k], p.combine));
            }
        }
        assert(g[p.combine as int] == r[p.combine as int]);
        let f = align_pairs(pairs, r);
        assert forall|k: int|
            0 <= k < pairs.len() implies f[(#[trigger] pairs[k]).left as int] == sat_pred(r[pairs[k].combine as int])
            && f[pairs[k].right as int] == sat_pred(r[pairs[k].combine as int]) && f[pairs[k].combine as int]
            == r[pairs[k].combine as int] by {
            if k < n {
                assert(d[k] == pairs[k]);
                assert(in_pair(pairs[k], pairs[k].left));
                assert(in_pair(pairs[k], pairs[k].right));
                assert(in_pair(pairs[k], pairs[k].combine));
                assert(!in_pair(pairs[n], pairs[k].left));
                assert(!in_pair(pairs[n], pairs[k].right));
                assert(!in_pair(pairs[n], pairs[k].combine));
            }
        }
        assert forall|x: usize|
            x < r.len() && (forall|k: int| 0 <= k < pairs.len() ==> (#[trigger] pairs[k]).left != x && pairs[k].right
                != x) implies #[trigger] f[x as int] == r[x as int] by {
            assert(pairs[n].left != x && pairs[n].right != x);
            assert forall|k: int| 0 <= k < d.len() implies (#[trigger] d[k]).left != x && d[k].right != x by {
                assert(d[k] == pairs[k]);
            }
        }
    }
}

/// Moves both feeders of every fan-in pair, in pair order, one rank above the
/// pair's combiner (the combiner's current rank minus one, at least 0).
pub fn align_combine_feeder_ranks(units: &UnitLayout, unit_ranks: &mut [u32])
    requires
        pairs_within(units.fanin_pairs@, old(unit_ranks)@.len()),
    ensures
        final(unit_ranks)@ == align_pairs(units.fanin_pairs@, old(unit_ranks)@),
{
    let ghost orig = unit_ranks@;
    let pairs = &units.fanin_pairs;
    let mut k: usize = 0;
    assert(pairs@.take(0) =~= Seq::<FanInPair>::empty());
    while k < pairs.len()
        invariant
            0 <= k <= pairs@.len(),
            pairs@ == units.fanin_pairs@,
            pairs_within(pairs@, orig.len()),
            unit_ranks@.len() == orig.len(),
            unit_ranks@ == align_pairs(pairs@.take(k as int), orig),
        decreases pairs.len() - k,
    {
        assert(pairs@.take(k + 1).drop_last() =~= pairs@.take(k as int));
        assert(pairs@.take(k + 1).last() == pairs@[k as int]);
        let p = pairs[k];
        let combine_rank = unit_ranks[p.combine];
        let target = combine_rank.saturating_sub(1);
        unit_ranks[p.left] = target;
        unit_ranks[p.right] = target;
        k = k + 1;
    }
    assert(pairs@.take(k as int) =~= pairs@);
}

} // verus!
