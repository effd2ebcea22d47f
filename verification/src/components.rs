//! Layout components: nodes joined by edges (either direction) or by a
//! shared delay / signal id, listed by smallest id.

use vstd::prelude::*;

use crate::kinds::DelayPairGroup;
use crate::layout_graph::{has_edge, LayoutGraph, LayoutNodeId};
use crate::ranks::{find_pos, id_pos, lemma_id_pos};
use crate::topology::{signal_hex, spec_signal_hex};

verus! {

/// Two nodes of the graph joined by an edge (either way) or by the same
/// delay / signal id.
pub open spec fn linked(g: LayoutGraph, x: LayoutNodeId, y: LayoutNodeId) -> bool {
    &&& g.spec_node(x) is Some
    &&& g.spec_node(y) is Some
    &&& has_edge(g.edge_seq(), x, y) || has_edge(g.edge_seq(), y, x) || (spec_signal_hex(g, x) is Some
        && spec_signal_hex(g, x) == spec_signal_hex(g, y))
}

/// Consecutive entries of `p` are linked.
pub open spec fn is_path(g: LayoutGraph, p: Seq<LayoutNodeId>) -> bool {
    &&& p.len() >= 1
    &&& forall|i: int| 0 <= i < p.len() - 1 ==> #[trigger] linked(g, p[i], p[i + 1])
}

/// A path leads from `x` to `y`.
pub open spec fn connected(g: LayoutGraph, x: LayoutNodeId, y: LayoutNodeId) -> bool {
    exists|p: Seq<LayoutNodeId>| #[trigger] is_path(g, p) && p[0] == x && p.last() == y
}

pub proof fn lemma_connected_refl(g: LayoutGraph, x: LayoutNodeId)
    ensures
        connected(g, x, x),
{
    let p = seq![x];
    assert(is_path(g, p));
}

pub proof fn lemma_connected_link(g: LayoutGraph, x: LayoutNodeId, y: LayoutNodeId)
    requires
        linked(g, x, y),
    ensures
        connected(g, x, y),
{
    let p = seq![x, y];
    assert(linked(g, p[0], p[1]));
    assert(is_path(g, p));
}

pub proof fn lemma_connected_sym(g: LayoutGraph, x: LayoutNodeId, y: LayoutNodeId)
    requires
        connected(g, x, y),
    ensures
        connected(g, y, x),
{
    let p = choose|p: Seq<LayoutNodeId>| #[trigger] is_path(g, p) && p[0] == x && p.last() == y;
    let q = p.reverse();
    assert forall|i: int| 0 <= i < q.len() - 1 implies #[trigger] linked(g, q[i], q[i + 1]) by {
        let j = p.len() - 2 - i;
        assert(linked(g, p[j], p[j + 1]));
        assert(q[i] == p[j + 1]);
        assert(q[i + 1] == p[j]);
    }
    assert(is_path(g, q));
    assert(q[0] == y);
    assert(q.last() == x);
}

pub proof fn lemma_connected_trans(g: LayoutGraph, x: LayoutNodeId, y: LayoutNodeId, z: LayoutNodeId)
    requires
        connected(g, x, y),
        connected(g, y, z),
    ensures
        connected(g, x, z),
{
    let p = choose|p: Seq<LayoutNodeId>| #[trigger] is_path(g, p) && p[0] == x && p.last() == y;
    let q = choose|q: Seq<LayoutNodeId>| #[trigger] is_path(g, q) && q[0] == y && q.last() == z;
    let r = p + q.drop_first();
    assert forall|i: int| 0 <= i < r.len() - 1 implies #[trigger] linked(g, r[i], r[i + 1]) by {
        if i < p.len() - 1 {
            assert(linked(g, p[i], p[i + 1]));
        } else if i == p.len() - 1 {
            assert(r[i] == y);
            assert(r[i + 1] == q[1]);
            assert(linked(g, q[0], q[1]));
        } else {
            let j = i - p.len() + 1;
            assert(linked(g, q[j], q[j + 1]));
            assert(r[i] == q[j]);
            assert(r[i + 1] == q[j + 1]);
        }
    }
    assert(is_path(g, r));
    if q.len() == 1 {
        assert(r =~= p);
    }
}

/// With the same label on both ends of every link, labels are constant along
/// any path.
proof fn lemma_label_along_path(g: LayoutGraph, lab: spec_fn(LayoutNodeId) -> LayoutNodeId, p: Seq<LayoutNodeId>)
    requires
        is_path(g, p),
        forall|u: LayoutNodeId, v: LayoutNodeId| #[trigger] linked(g, u, v) ==> lab(u) == lab(v),
    ensures
        lab(p[0]) == lab(p.last()),
    decreases p.len(),
{
    if p.len() > 1 {
        let q = p.drop_last();
        assert forall|i: int| 0 <= i < q.len() - 1 implies #[trigger] linked(g, q[i], q[i + 1]) by {
            assert(linked(g, p[i], p[i + 1]));
        }
        lemma_label_along_path(g, lab, q);
        let i = p.len() - 2;
        assert(linked(g, p[i], p[i + 1]));
    }
}

pub proof fn lemma_label_connected(
    g: LayoutGraph,
    lab: spec_fn(LayoutNodeId) -> LayoutNodeId,
    x: LayoutNodeId,
    y: LayoutNodeId,
)
    requires
        connected(g, x, y),
        forall|u: LayoutNodeId, v: LayoutNodeId| #[trigger] linked(g, u, v) ==> lab(u) == lab(v),
    ensures
        lab(x) == lab(y),
{
    let p = choose|p: Seq<LayoutNodeId>| #[trigger] is_path(g, p) && p[0] == x && p.last() == y;
    lemma_label_along_path(g, lab, p);
}

/// Every node id in `ids` names a node of the graph, and every node is there.
proof fn lemma_ids_nodes(g: LayoutGraph, j: int)
    requires
        g.well_formed(),
        0 <= j < g.spec_node_ids().len(),
    ensures
        g.spec_node(g.spec_node_ids()[j]) is Some,
{
    assert(g.spec_node_ids()[j] == g.node_seq()[j].id);
    crate::layout_graph::lemma_lookup_found(g.node_seq(), j);
}

/// Every edge joins two nodes of the graph.
pub open spec fn edges_between_nodes(g: LayoutGraph) -> bool {
    forall|k: int|
        0 <= k < g.edge_seq().len() ==> g.spec_node(#[trigger] g.edge_seq()[k].from) is Some && g.spec_node(
            g.edge_seq()[k].to,
        ) is Some
}

/// Position pairs `links` join linked nodes, and cover every link between
/// two different positions.
pub open spec fn links_exact(g: LayoutGraph, ids: Seq<LayoutNodeId>, links: Seq<(usize, usize)>) -> bool {
    &&& forall|k: int|
        0 <= k < links.len() ==> (#[trigger] links[k]).0 < ids.len() && links[k].1 < ids.len() && linked(
            g,
            ids[links[k].0 as int],
            ids[links[k].1 as int],
        )
    &&& forall|a: int, b: int|
        0 <= a < ids.len() && 0 <= b < ids.len() && a != b && #[trigger] linked(g, ids[a], ids[b])
            ==> exists|k: int|
            0 <= k < links.len() && (#[trigger] links[k] == (a as usize, b as usize) || links[k] == (
                b as usize,
                a as usize,
            ))
}

fn link_positions(g: &LayoutGraph, ids: &Vec<LayoutNodeId>) -> (links: Vec<(usize, usize)>)
    requires
        ids@ == g.spec_node_ids(),
        g.well_formed(),
        forall|a: int, b: int| 0 <= a < b < ids@.len() ==> ids@[a] < ids@[b],
        edges_between_nodes(*g),
    ensures
        links_exact(*g, ids@, links@),
{
    let n = ids.len();
    let edges = g.edges();
    let mut links: Vec<(usize, usize)> = Vec::new();
    let mut k: usize = 0;
    while k < edges.len()
        invariant
            0 <= k <= edges@.len(),
            n == ids@.len(),
            edges@ == g.edge_seq(),
            ids@ == g.spec_node_ids(),
            g.well_formed(),
            forall|a: int, b: int| 0 <= a < b < ids@.len() ==> ids@[a] < ids@[b],
            edges_between_nodes(*g),
            links@.len() == k,
            forall|q: int|
                0 <= q < k ==> (#[trigger] links@[q]).0 < n && links@[q].1 < n && ids@[links@[q].0 as int]
                    == edges@[q].from && ids@[links@[q].1 as int] == edges@[q].to,
        decreases edges.len() - k,
    {
        let e = edges[k];
        proof {
            crate::units::lemma_node_in_ids(*g, e.from);
            crate::units::lemma_node_in_ids(*g, e.to);
            lemma_id_pos(ids@, e.from);
            lemma_id_pos(ids@, e.to);
        }
        let a = find_pos(ids, e.from).unwrap();
        let b = find_pos(ids, e.to).unwrap();
        links.push((a, b));
        k = k + 1;
    }
    let ghost m = links@.len();
    let mut i: usize = 0;
    while i < n
        invariant
            0 <= i <= n,
            n == ids@.len(),
            edges@ == g.edge_seq(),
            ids@ == g.spec_node_ids(),
            g.well_formed(),
            m == edges@.len(),
            links@.len() >= m,
            forall|q: int|
                0 <= q < m ==> (#[trigger] links@[q]).0 < n && links@[q].1 < n && ids@[links@[q].0 as int]
                    == edges@[q].from && ids@[links@[q].1 as int] == edges@[q].to,
            forall|q: int|
                m <= q < links@.len() ==> (#[trigger] links@[q]).0 < links@[q].1 < n && spec_signal_hex(
                    *g,
                    ids@[links@[q].0 as int],
                ) is Some && spec_signal_hex(*g, ids@[links@[q].0 as int]) == spec_signal_hex(
                    *g,
                    ids@[links@[q].1 as int],
                ),
            forall|a: int, b: int|
                0 <= a < i && a < b < n && spec_signal_hex(*g, ids@[a]) is Some && spec_signal_hex(*g, ids@[a])
                    == spec_signal_hex(*g, ids@[b]) ==> exists|q: int|
                    m <= q < links@.len() && #[trigger] links@[q] == (a as usize, b as usize),
        decreases n - i,
    {
        let hi = signal_hex(g, ids[i]);
        let mut j: usize = i + 1;
        while j < n
            invariant
                0 <= i < j <= n,
                n == ids@.len(),
                hi == spec_signal_hex(*g, ids@[i as int]),
                m <= links@.len(),
                forall|q: int|
                    0 <= q < m ==> (#[trigger] links@[q]).0 < n && links@[q].1 < n && ids@[links@[q].0 as int]
                        == edges@[q].from && ids@[links@[q].1 as int] == edges@[q].to,
                forall|q: int|
                    m <= q < links@.len() ==> (#[trigger] links@[q]).0 < links@[q].1 < n && spec_signal_hex(
                        *g,
                        ids@[links@[q].0 as int],
                    ) is Some && spec_signal_hex(*g, ids@[links@[q].0 as int]) == spec_signal_hex(
                        *g,
                        ids@[links@[q].1 as int],
                    ),
                forall|a: int, b: int|
                    0 <= a < i && a < b < n && spec_signal_hex(*g, ids@[a]) is Some && spec_signal_hex(
                        *g,
                        ids@[a],
                    ) == spec_signal_hex(*g, ids@[b]) ==> exists|q: int|
                        m <= q < links@.len() && #[trigger] links@[q] == (a as usize, b as usize),
                forall|b: int|
                    i < b < j && spec_signal_hex(*g, ids@[i as int]) is Some && spec_signal_hex(
                        *g,
                        ids@[i as int],
                    ) == spec_signal_hex(*g, ids@[b]) ==> exists|q: int|
                        m <= q < links@.len() && #[trigger] links@[q] == (i, b as usize),
            decreases n - j,
        {
            let hj = signal_hex(g, ids[j]);
            let ghost before = links@;
            if hi.is_some() && hi == hj {
                links.push((i, j));
                proof {
                    let last = links@.len() - 1;
                    assert(links@[last] == (i, j));
                    assert forall|a: int, b: int|
                        0 <= a < i && a < b < n && spec_signal_hex(*g, ids@[a]) is Some && spec_signal_hex(
                            *g,
                            ids@[a],
                        ) == spec_signal_hex(*g, ids@[b]) implies exists|q: int|
                        m <= q < links@.len() && #[trigger] links@[q] == (a as usize, b as usize) by {
                        let q = choose|q: int|
                            m <= q < before.len() && #[trigger] before[q] == (a as usize, b as usize);
                        assert(links@[q] == before[q]);
                    }
                    assert forall|b: int|
                        i < b < j + 1 && spec_signal_hex(*g, ids@[i as int]) is Some && spec_signal_hex(
                            *g,
                            ids@[i as int],
                        ) == spec_signal_hex(*g, ids@[b]) implies exists|q: int|
                        m <= q < links@.len() && #[trigger] links@[q] == (i, b as usize) by {
                        if b < j {
                            let q = choose|q: int| m <= q < before.len() && #[trigger] before[q] == (i, b as usize);
                            assert(links@[q] == before[q]);
                        } else {
                            assert(links@[last] == (i, b as usize));
                        }
                    }
                }
            }
            j = j + 1;
        }
        i = i + 1;
    }
    proof {
        assert forall|q: int| 0 <= q < links@.len() implies (#[trigger] links@[q]).0 < ids@.len() && links@[q].1
            < ids@.len() && linked(*g, ids@[links@[q].0 as int], ids@[links@[q].1 as int]) by {
            let x = ids@[links@[q].0 as int];
            let y = ids@[links@[q].1 as int];
            lemma_ids_nodes(*g, links@[q].0 as int);
            lemma_ids_nodes(*g, links@[q].1 as int);
            if q < m {
                assert(has_edge(g.edge_seq(), x, y)) by {
                    assert(edges@[q].from == x && edges@[q].to == y);
                }
            }
        }
        assert forall|a: int, b: int|
            0 <= a < ids@.len() && 0 <= b < ids@.len() && a != b && #[trigger] linked(*g, ids@[a], ids@[b])
                implies exists|k: int|
            0 <= k < links@.len() && (#[trigger] links@[k] == (a as usize, b as usize) || links@[k] == (
                b as usize,
                a as usize,
            )) by {
            let x = ids@[a];
            let y = ids@[b];
            if has_edge(g.edge_seq(), x, y) {
                let q = choose|q: int| 0 <= q < edges@.len() && edges@[q].from == x && edges@[q].to == y;
                assert(links@[q].0 == a as usize) by {
                    if links@[q].0 as int != a {
                        if (links@[q].0 as int) < a {
                            assert(ids@[links@[q].0 as int] < ids@[a]);
                        } else {
                            assert(ids@[a] < ids@[links@[q].0 as int]);
                        }
                    }
                }
                assert(links@[q].1 == b as usize) by {
                    if links@[q].1 as int != b {
                        if (links@[q].1 as int) < b {
                            assert(ids@[links@[q].1 as int] < ids@[b]);
                        } else {
                            assert(ids@[b] < ids@[links@[q].1 as int]);
                        }
                    }
                }
            } else if has_edge(g.edge_seq(), y, x) {
                let q = choose|q: int| 0 <= q < edges@.len() && edges@[q].from == y && edges@[q].to == x;
                assert(links@[q].0 == b as usize) by {
                    if links@[q].0 as int != b {
                        if (links@[q].0 as int) < b {
                            assert(ids@[links@[q].0 as int] < ids@[b]);
                        } else {
                            assert(ids@[b] < ids@[links@[q].0 as int]);
                        }
                    }
                }
                assert(links@[q].1 == a as usize) by {
                    if links@[q].1 as int != a {
                        if (links@[q].1 as int) < a {
                            assert(ids@[links@[q].1 as int] < ids@[a]);
                        } else {
                            assert(ids@[a] < ids@[links@[q].1 as int]);
                        }
                    }
                }
            } else if a < b {
                assert(spec_signal_hex(*g, ids@[a]) is Some && spec_signal_hex(*g, ids@[a]) == spec_signal_hex(*g, ids@[b]));
            } else {
                assert(spec_signal_hex(*g, ids@[b]) is Some && spec_signal_hex(*g, ids@[b]) == spec_signal_hex(*g, ids@[a]));
            }
        }
    }
    links
}

/// Sum of the entries.
pub open spec fn seq_sum(s: Seq<usize>) -> nat
    decreases s.len(),
{
    if s.len() == 0 {
        0
    } else {
        seq_sum(s.drop_last()) + s.last() as nat
    }
}

proof fn lemma_sum_update(s: Seq<usize>, i: int, v: usize)
    requires
        0 <= i < s.len(),
    ensures
        seq_sum(s.update(i, v)) == seq_sum(s) - s[i] + v,
    decreases s.len(),
{
    if i < s.len() - 1 {
        lemma_sum_update(s.drop_last(), i, v);
        assert(s.update(i, v).drop_last() =~= s.drop_last().update(i, v));
    } else {
        assert(s.update(i, v).drop_last() =~= s.drop_last());
    }
}

/// Each label is the id of a node connected to the node at its position,
/// and no larger than that node's id.
pub open spec fn labels_ok(g: LayoutGraph, ids: Seq<LayoutNodeId>, lab: Seq<LayoutNodeId>) -> bool {
    &&& lab.len() == ids.len()
    &&& forall|i: int|
        0 <= i < ids.len() ==> ids.contains(#[trigger] lab[i]) && lab[i] <= ids[i] && connected(
            g,
            ids[i],
            lab[i],
        )
}

/// Lowers labels across links until both ends of every link agree.
fn propagate(g: &LayoutGraph, ids: &Vec<LayoutNodeId>, links: &Vec<(usize, usize)>) -> (lab: Vec<LayoutNodeId>)
    requires
        links_exact(*g, ids@, links@),
    ensures
        labels_ok(*g, ids@, lab@),
        forall|k: int| 0 <= k < links@.len() ==> lab@[(#[trigger] links@[k]).0 as int] == lab@[links@[k].1 as int],
{
    let n = ids.len();
    let mut lab: Vec<LayoutNodeId> = Vec::new();
    let mut i: usize = 0;
    while i < n
        invariant
            0 <= i <= n,
            n == ids@.len(),
            lab@ == ids@.take(i as int),
        decreases n - i,
    {
        lab.push(ids[i]);
        i = i + 1;
        assert(lab@ =~= ids@.take(i as int));
    }
    assert(lab@ =~= ids@);
    assert forall|i: int| 0 <= i < ids@.len() implies ids@.contains(#[trigger] lab@[i]) && lab@[i] <= ids@[i]
        && connected(*g, ids@[i], lab@[i]) by {
        lemma_connected_refl(*g, ids@[i]);
    }
    loop
        invariant
            labels_ok(*g, ids@, lab@),
            links_exact(*g, ids@, links@),
        ensures
            labels_ok(*g, ids@, lab@),
            forall|k: int|
                0 <= k < links@.len() ==> lab@[(#[trigger] links@[k]).0 as int] == lab@[links@[k].1 as int],
        decreases seq_sum(lab@),
    {
        let ghost start = lab@;
        let mut changed = false;
        let mut k: usize = 0;
        while k < links.len()
            invariant
                0 <= k <= links@.len(),
                labels_ok(*g, ids@, lab@),
                links_exact(*g, ids@, links@),
                seq_sum(lab@) <= seq_sum(start),
                changed ==> seq_sum(lab@) < seq_sum(start),
                !changed ==> lab@ == start,
                !changed ==> forall|q: int|
                    0 <= q < k ==> lab@[(#[trigger] links@[q]).0 as int] == lab@[links@[q].1 as int],
            decreases links.len() - k,
        {
            let (a, b) = links[k];
            assert(links@[k as int] == (a, b));
            let la = lab[a];
            let lb = lab[b];
            if la < lb {
                proof {
                    lemma_connected_link(*g, ids@[b as int], ids@[a as int]);
                    lemma_connected_trans(*g, ids@[b as int], ids@[a as int], la);
                    lemma_sum_update(lab@, b as int, la);
                }
                lab.set(b, la);
                changed = true;
            } else if lb < la {
                proof {
                    lemma_connected_link(*g, ids@[a as int], ids@[b as int]);
                    lemma_connected_trans(*g, ids@[a as int], ids@[b as int], lb);
                    lemma_sum_update(lab@, a as int, lb);
                }
                lab.set(a, lb);
                changed = true;
            }
            k = k + 1;
        }
        if !changed {
            break;
        }
    }
    lab
}

/// The ids at positions `j < i` where `keep(j)`, in position order.
pub open spec fn collect(ids: Seq<LayoutNodeId>, keep: spec_fn(int) -> bool, i: int) -> Seq<LayoutNodeId>
    decreases i,
{
    if i <= 0 {
        Seq::empty()
    } else {
        let rest = collect(ids, keep, i - 1);
        if keep(i - 1) {
            rest.push(ids[i - 1])
        } else {
            rest
        }
    }
}

proof fn lemma_collect(ids: Seq<LayoutNodeId>, keep: spec_fn(int) -> bool, i: int)
    requires
        0 <= i <= ids.len(),
        forall|a: int, b: int| 0 <= a < b < ids.len() ==> ids[a] < ids[b],
    ensures
        forall|x: LayoutNodeId|
            collect(ids, keep, i).contains(x) <==> exists|j: int| 0 <= j < i && keep(j) && ids[j] == x,
        forall|a: int, b: int|
            0 <= a < b < collect(ids, keep, i).len() ==> collect(ids, keep, i)[a] < collect(ids, keep, i)[b],
    decreases i,
{
    if i <= 0 {
        assert(collect(ids, keep, i) =~= Seq::<LayoutNodeId>::empty());
    } else {
        lemma_collect(ids, keep, i - 1);
        let rest = collect(ids, keep, i - 1);
        let c = collect(ids, keep, i);
        assert forall|x: LayoutNodeId| c.contains(x) <==> exists|j: int| 0 <= j < i && keep(j) && ids[j] == x by {
            if c.contains(x) && (x != ids[i - 1] || !keep(i - 1)) {
                let q = choose|q: int| 0 <= q < c.len() && c[q] == x;
                if q < rest.len() {
                    assert(rest[q] == x);
                    assert(rest.contains(x));
                } else {
                    assert(keep(i - 1) && c[q] == ids[i - 1]);
                }
            }
            if exists|j: int| 0 <= j < i && keep(j) && ids[j] == x {
                let j = choose|j: int| 0 <= j < i && keep(j) && ids[j] == x;
                if j < i - 1 {
                    assert(rest.contains(x));
                    let q = choose|q: int| 0 <= q < rest.len() && rest[q] == x;
                    assert(c[q] == x);
                } else {
                    assert(c[c.len() - 1] == x);
                }
            }
        }
        assert forall|a: int, b: int| 0 <= a < b < c.len() implies c[a] < c[b] by {
            if b < rest.len() {
                assert(c[a] == rest[a] && c[b] == rest[b]);
            } else {
                assert(c[a] == rest[a]);
                assert(rest.contains(rest[a]));
                let j = choose|j: int| 0 <= j < i - 1 && keep(j) && ids[j] == rest[a];
                assert(ids[j] < ids[i - 1]);
            }
        }
    }
}

/// Positions whose label is `r`.
pub open spec fn keep_label(lab: Seq<LayoutNodeId>, r: LayoutNodeId) -> spec_fn(int) -> bool {
    |j: int| lab[j] == r
}

/// Positions labelled with their own id: the roots.
pub open spec fn keep_root(ids: Seq<LayoutNodeId>, lab: Seq<LayoutNodeId>) -> spec_fn(int) -> bool {
    |j: int| lab[j] == ids[j]
}

/// Law: two nodes that carry the same delay / signal id are connected,
/// whatever their kinds.
pub proof fn lemma_same_id_connected(g: LayoutGraph, x: LayoutNodeId, y: LayoutNodeId, h: u8)
    requires
        g.spec_node(x) matches Some(nx) && nx.delay_pair == Some(DelayPairGroup::Hex(h)),
        g.spec_node(y) matches Some(ny) && ny.delay_pair == Some(DelayPairGroup::Hex(h)),
    ensures
        connected(g, x, y),
{
    assert(spec_signal_hex(g, x) == Some(h));
    assert(spec_signal_hex(g, y) == Some(h));
    assert(linked(g, x, y));
    lemma_connected_link(g, x, y);
}

/// `cs` lists the components of `g`: each non-empty and in increasing id
/// order, ordered by their first (smallest) id, made of nodes of `g`,
/// covering every node, connected inside, and unconnected to each other.
pub open spec fn is_component_listing(g: LayoutGraph, cs: Seq<Seq<LayoutNodeId>>) -> bool {
    &&& forall|k: int| 0 <= k < cs.len() ==> (#[trigger] cs[k]).len() > 0
    &&& forall|k: int, i: int, j: int|
        0 <= k < cs.len() && 0 <= i < j < cs[k].len() ==> #[trigger] cs[k][i] < #[trigger] cs[k][j]
    &&& forall|k: int, l: int| 0 <= k < l < cs.len() ==> (#[trigger] cs[k])[0] < (#[trigger] cs[l])[0]
    &&& forall|k: int, i: int|
        0 <= k < cs.len() && 0 <= i < cs[k].len() ==> g.spec_node(#[trigger] cs[k][i]) is Some
    &&& forall|x: LayoutNodeId|
        g.spec_node(x) is Some ==> exists|k: int, i: int|
            0 <= k < cs.len() && 0 <= i < cs[k].len() && #[trigger] cs[k][i] == x
    &&& forall|k: int, i: int, j: int|
        0 <= k < cs.len() && 0 <= i < cs[k].len() && 0 <= j < cs[k].len() ==> connected(
            g,
            #[trigger] cs[k][i],
            #[trigger] cs[k][j],
        )
    &&& forall|k: int, l: int, i: int, j: int|
        0 <= k < cs.len() && 0 <= l < cs.len() && k != l && 0 <= i < cs[k].len() && 0 <= j < cs[l].len()
            ==> !connected(g, #[trigger] cs[k][i], #[trigger] cs[l][j])
}

/// Law: in a component listing, two nodes that carry the same delay /
/// signal id, whatever their kinds, are listed in the same component.
pub proof fn lemma_same_id_same_component(
    g: LayoutGraph,
    cs: Seq<Seq<LayoutNodeId>>,
    k: int,
    i: int,
    l: int,
    j: int,
    h: u8,
)
    requires
        is_component_listing(g, cs),
        0 <= k < cs.len(),
        0 <= i < cs[k].len(),
        0 <= l < cs.len(),
        0 <= j < cs[l].len(),
        g.spec_node(cs[k][i]) matches Some(nx) && nx.delay_pair == Some(DelayPairGroup::Hex(h)),
        g.spec_node(cs[l][j]) matches Some(ny) && ny.delay_pair == Some(DelayPairGroup::Hex(h)),
    ensures
        k == l,
{
    lemma_same_id_connected(g, cs[k][i], cs[l][j], h);
}

/// The label of a node id, through its position.
pub open spec fn label_of(ids: Seq<LayoutNodeId>, lab: Seq<LayoutNodeId>) -> spec_fn(LayoutNodeId) -> LayoutNodeId {
    |x: LayoutNodeId|
        match id_pos(ids, x) {
            Some(i) => lab[i],
            None => x,
        }
}

/// Settled labels agree across every link, and each label is its own root.
proof fn lemma_settled_labels(g: LayoutGraph, ids: Seq<LayoutNodeId>, links: Seq<(usize, usize)>, lab: Seq<LayoutNodeId>)
    requires
        g.well_formed(),
        ids == g.spec_node_ids(),
        ids.len() <= usize::MAX,
        forall|a: int, b: int| 0 <= a < b < ids.len() ==> ids[a] < ids[b],
        links_exact(g, ids, links),
        labels_ok(g, ids, lab),
        forall|k: int| 0 <= k < links.len() ==> lab[(#[trigger] links[k]).0 as int] == lab[links[k].1 as int],
    ensures
        forall|u: LayoutNodeId, v: LayoutNodeId|
            #[trigger] linked(g, u, v) ==> label_of(ids, lab)(u) == label_of(ids, lab)(v),
        forall|i: int|
            0 <= i < ids.len() ==> (id_pos(ids, #[trigger] lab[i]) matches Some(q) && lab[q] == lab[i] && ids[q]
                == lab[i]),
{
    let lf = label_of(ids, lab);
    assert forall|u: LayoutNodeId, v: LayoutNodeId| #[trigger] linked(g, u, v) implies lf(u) == lf(v) by {
        crate::units::lemma_node_in_ids(g, u);
        crate::units::lemma_node_in_ids(g, v);
        lemma_id_pos(ids, u);
        lemma_id_pos(ids, v);
        let a = id_pos(ids, u)->0;
        let b = id_pos(ids, v)->0;
        if a != b {
            assert(linked(g, ids[a], ids[b]));
            let k = choose|k: int|
                0 <= k < links.len() && (#[trigger] links[k] == (a as usize, b as usize) || links[k] == (
                    b as usize,
                    a as usize,
                ));
        }
    }
    assert forall|i: int| 0 <= i < ids.len() implies (id_pos(ids, #[trigger] lab[i]) matches Some(q) && lab[q]
        == lab[i] && ids[q] == lab[i]) by {
        let r = lab[i];
        lemma_id_pos(ids, r);
        lemma_id_pos(ids, ids[i]);
        let q = id_pos(ids, r)->0;
        lemma_label_connected(g, lf, ids[i], r);
        let p = id_pos(ids, ids[i])->0;
        if p != i {
            if p < i {
                assert(ids[p] < ids[i]);
            } else {
                assert(ids[i] < ids[p]);
            }
        }
    }
}

/// What `find_layout_components` has computed before it returns: settled
/// labels, the roots, and one component per root.
pub open spec fn listing_setup(
    g: LayoutGraph,
    ids: Seq<LayoutNodeId>,
    links: Seq<(usize, usize)>,
    lab: Seq<LayoutNodeId>,
    roots: Seq<LayoutNodeId>,
    cs: Seq<Seq<LayoutNodeId>>,
) -> bool {
    &&& g.well_formed()
    &&& ids == g.spec_node_ids()
    &&& ids.len() <= usize::MAX
    &&& forall|a: int, b: int| 0 <= a < b < ids.len() ==> ids[a] < ids[b]
    &&& links_exact(g, ids, links)
    &&& labels_ok(g, ids, lab)
    &&& forall|k: int| 0 <= k < links.len() ==> lab[(#[trigger] links[k]).0 as int] == lab[links[k].1 as int]
    &&& roots == collect(ids, keep_root(ids, lab), ids.len() as int)
    &&& cs.len() == roots.len()
    &&& forall|q: int|
        0 <= q < cs.len() ==> #[trigger] cs[q] == collect(ids, keep_label(lab, roots[q]), ids.len() as int)
}

/// Component `k` holds exactly the nodes labelled with root `k`, increasing,
/// and starts with that root.
proof fn lemma_listing_member(
    g: LayoutGraph,
    ids: Seq<LayoutNodeId>,
    links: Seq<(usize, usize)>,
    lab: Seq<LayoutNodeId>,
    roots: Seq<LayoutNodeId>,
    cs: Seq<Seq<LayoutNodeId>>,
    k: int,
)
    requires
        listing_setup(g, ids, links, lab, roots, cs),
        0 <= k < cs.len(),
    ensures
        forall|x: LayoutNodeId|
            #[trigger] cs[k].contains(x) <==> exists|j: int| 0 <= j < ids.len() && lab[j] == roots[k] && ids[j] == x,
        forall|a: int, b: int| 0 <= a < b < cs[k].len() ==> #[trigger] cs[k][a] < #[trigger] cs[k][b],
        cs[k].len() > 0,
        cs[k][0] == roots[k],
        forall|a: int, b: int| 0 <= a < b < roots.len() ==> roots[a] < roots[b],
{
    let n = ids.len() as int;
    lemma_collect(ids, keep_root(ids, lab), n);
    lemma_collect(ids, keep_label(lab, roots[k]), n);
    assert(roots.contains(roots[k]));
    let j = choose|j: int| 0 <= j < n && keep_root(ids, lab)(j) && ids[j] == roots[k];
    assert(0 <= j < n && lab[j] == roots[k] && ids[j] == roots[k]);
    assert(cs[k].contains(roots[k]));
    let p = choose|p: int| 0 <= p < cs[k].len() && cs[k][p] == roots[k];
    assert(cs[k].contains(cs[k][0]));
    let j0 = choose|j0: int| 0 <= j0 < n && lab[j0] == roots[k] && ids[j0] == cs[k][0];
    assert(lab[j0] <= ids[j0]);
    if p > 0 {
        assert(cs[k][0] < cs[k][p]);
    }
}

proof fn lemma_listing_cover(
    g: LayoutGraph,
    ids: Seq<LayoutNodeId>,
    links: Seq<(usize, usize)>,
    lab: Seq<LayoutNodeId>,
    roots: Seq<LayoutNodeId>,
    cs: Seq<Seq<LayoutNodeId>>,
    x: LayoutNodeId,
)
    requires
        listing_setup(g, ids, links, lab, roots, cs),
        g.spec_node(x) is Some,
    ensures
        exists|k: int, i: int| 0 <= k < cs.len() && 0 <= i < cs[k].len() && #[trigger] cs[k][i] == x,
{
    let n = ids.len() as int;
    lemma_settled_labels(g, ids, links, lab);
    lemma_collect(ids, keep_root(ids, lab), n);
    crate::units::lemma_node_in_ids(g, x);
    lemma_id_pos(ids, x);
    let j = id_pos(ids, x)->0;
    let r = lab[j];
    lemma_id_pos(ids, r);
    assert(id_pos(ids, lab[j]) matches Some(q) && lab[q] == lab[j] && ids[q] == lab[j]);
    let q = id_pos(ids, r)->0;
    assert(0 <= q < n && keep_root(ids, lab)(q) && ids[q] == r);
    assert(roots.contains(r));
    let k = choose|k: int| 0 <= k < roots.len() && roots[k] == r;
    lemma_listing_member(g, ids, links, lab, roots, cs, k);
    assert(0 <= j < n && lab[j] == roots[k] && ids[j] == x);
    assert(cs[k].contains(x));
    let i = choose|i: int| 0 <= i < cs[k].len() && cs[k][i] == x;
    assert(0 <= k < cs.len() && 0 <= i < cs[k].len() && cs[k][i] == x);
}

proof fn lemma_listing_separate(
    g: LayoutGraph,
    ids: Seq<LayoutNodeId>,
    links: Seq<(usize, usize)>,
    lab: Seq<LayoutNodeId>,
    roots: Seq<LayoutNodeId>,
    cs: Seq<Seq<LayoutNodeId>>,
    k: int,
    l: int,
    i: int,
    j: int,
)
    requires
        listing_setup(g, ids, links, lab, roots, cs),
        0 <= k < cs.len(),
        0 <= l < cs.len(),
        0 <= i < cs[k].len(),
        0 <= j < cs[l].len(),
    ensures
        k == l ==> connected(g, cs[k][i], cs[l][j]),
        k != l ==> !connected(g, cs[k][i], cs[l][j]),
{
    let n = ids.len() as int;
    let lf = label_of(ids, lab);
    lemma_settled_labels(g, ids, links, lab);
    lemma_listing_member(g, ids, links, lab, roots, cs, k);
    lemma_listing_member(g, ids, links, lab, roots, cs, l);
    assert(cs[k].contains(cs[k][i]));
    assert(cs[l].contains(cs[l][j]));
    let a = choose|a: int| 0 <= a < n && lab[a] == roots[k] && ids[a] == cs[k][i];
    let b = choose|b: int| 0 <= b < n && lab[b] == roots[l] && ids[b] == cs[l][j];
    if k == l {
        lemma_connected_sym(g, ids[b], roots[k]);
        lemma_connected_trans(g, ids[a], roots[k], ids[b]);
    } else {
        lemma_id_pos(ids, ids[a]);
        lemma_id_pos(ids, ids[b]);
        let pa = id_pos(ids, ids[a])->0;
        let pb = id_pos(ids, ids[b])->0;
        if pa != a {
            if pa < a {
                assert(ids[pa] < ids[a]);
            } else {
                assert(ids[a] < ids[pa]);
            }
        }
        if pb != b {
            if pb < b {
                assert(ids[pb] < ids[b]);
            } else {
                assert(ids[b] < ids[pb]);
            }
        }
        if connected(g, ids[a], ids[b]) {
            lemma_label_connected(g, lf, ids[a], ids[b]);
            if k < l {
                assert(roots[k] < roots[l]);
            } else {
                assert(roots[l] < roots[k]);
            }
        }
    }
}

proof fn lemma_listing(
    g: LayoutGraph,
    ids: Seq<LayoutNodeId>,
    links: Seq<(usize, usize)>,
    lab: Seq<LayoutNodeId>,
    roots: Seq<LayoutNodeId>,
    cs: Seq<Seq<LayoutNodeId>>,
)
    requires
        listing_setup(g, ids, links, lab, roots, cs),
    ensures
        is_component_listing(g, cs),
{
    let n = ids.len() as int;
    assert forall|k: int| 0 <= k < cs.len() implies (#[trigger] cs[k]).len() > 0 by {
        lemma_listing_member(g, ids, links, lab, roots, cs, k);
    }
    assert forall|k: int, i: int, j: int| 0 <= k < cs.len() && 0 <= i < j < cs[k].len() implies #[trigger] cs[k][i]
        < #[trigger] cs[k][j] by {
        lemma_listing_member(g, ids, links, lab, roots, cs, k);
    }
    assert forall|k: int, l: int| 0 <= k < l < cs.len() implies (#[trigger] cs[k])[0] < (#[trigger] cs[l])[0] by {
        lemma_listing_member(g, ids, links, lab, roots, cs, k);
        lemma_listing_member(g, ids, links, lab, roots, cs, l);
    }
    assert forall|k: int, i: int| 0 <= k < cs.len() && 0 <= i < cs[k].len() implies g.spec_node(
        #[trigger] cs[k][i],
    ) is Some by {
        lemma_listing_member(g, ids, links, lab, roots, cs, k);
        assert(cs[k].contains(cs[k][i]));
        let j = choose|j: int| 0 <= j < n && lab[j] == roots[k] && ids[j] == cs[k][i];
        lemma_ids_nodes(g, j);
    }
    assert forall|x: LayoutNodeId| g.spec_node(x) is Some implies exists|k: int, i: int|
        0 <= k < cs.len() && 0 <= i < cs[k].len() && #[trigger] cs[k][i] == x by {
        lemma_listing_cover(g, ids, links, lab, roots, cs, x);
    }
    assert forall|k: int, i: int, j: int|
        0 <= k < cs.len() && 0 <= i < cs[k].len() && 0 <= j < cs[k].len() implies connected(
        g,
        #[trigger] cs[k][i],
        #[trigger] cs[k][j],
    ) by {
        lemma_listing_separate(g, ids, links, lab, roots, cs, k, k, i, j);
    }
    assert forall|k: int, l: int, i: int, j: int|
        0 <= k < cs.len() && 0 <= l < cs.len() && k != l && 0 <= i < cs[k].len() && 0 <= j < cs[l].len()
            implies !connected(g, #[trigger] cs[k][i], #[trigger] cs[l][j]) by {
        lemma_listing_separate(g, ids, links, lab, roots, cs, k, l, i, j);
    }
}

/// Whether every edge of `graph` joins two of its nodes, as
/// [`find_layout_components`] needs.
pub fn edges_join_nodes(graph: &LayoutGraph) -> (r: bool)
    ensures
        r == edges_between_nodes(*graph),
{
    let edges = graph.edges();
    let mut k: usize = 0;
    while k < edges.len()
        invariant
            k <= edges@.len(),
            edges@ == graph.edge_seq(),
            forall|j: int|
                0 <= j < k ==> graph.spec_node(#[trigger] graph.edge_seq()[j].from) is Some
                    && graph.spec_node(graph.edge_seq()[j].to) is Some,
        decreases edges@.len() - k,
    {
        let e = edges[k];
        if graph.node(e.from).is_none() || graph.node(e.to).is_none() {
            return false;
        }
        k = k + 1;
    }
    true
}

/// The layout components: nodes joined by edges (in either direction) or by
/// a shared delay / signal id, each listed in increasing id order, the
/// components ordered by their smallest id.
pub fn find_layout_components(graph: &LayoutGraph) -> (comps: Vec<Vec<LayoutNodeId>>)
    requires
        edges_between_nodes(*graph),
    ensures
        is_component_listing(*graph, comps@.map_values(|c: Vec<LayoutNodeId>| c@)),
{
    proof {
        use_type_invariant(graph);
    }
    let ids = graph.sorted_node_ids();
    let n = ids.len();
    let links = link_positions(graph, &ids);
    let lab = propagate(graph, &ids, &links);
    let mut roots: Vec<LayoutNodeId> = Vec::new();
    let mut i: usize = 0;
    while i < n
        invariant
            0 <= i <= n,
            n == ids@.len(),
            lab@.len() == n,
            roots@ == collect(ids@, keep_root(ids@, lab@), i as int),
        decreases n - i,
    {
        if lab[i] == ids[i] {
            roots.push(ids[i]);
        }
        i = i + 1;
    }
    let mut comps: Vec<Vec<LayoutNodeId>> = Vec::new();
    let mut k: usize = 0;
    while k < roots.len()
        invariant
            0 <= k <= roots@.len(),
            n == ids@.len(),
            lab@.len() == n,
            comps@.len() == k,
            forall|q: int|
                0 <= q < k ==> (#[trigger] comps@[q])@ == collect(ids@, keep_label(lab@, roots@[q]), n as int),
        decreases roots.len() - k,
    {
        let r = roots[k];
        let mut members: Vec<LayoutNodeId> = Vec::new();
        let mut j: usize = 0;
        while j < n
            invariant
                0 <= j <= n,
                n == ids@.len(),
                lab@.len() == n,
                members@ == collect(ids@, keep_label(lab@, r), j as int),
            decreases n - j,
        {
            if lab[j] == r {
                members.push(ids[j]);
            }
            j = j + 1;
        }
        comps.push(members);
        k = k + 1;
    }
    proof {
        let cs = comps@.map_values(|c: Vec<LayoutNodeId>| c@);
        assert forall|q: int| 0 <= q < cs.len() implies #[trigger] cs[q] == collect(
            ids@,
            keep_label(lab@, roots@[q]),
            n as int,
        ) by {
            assert(cs[q] == comps@[q]@);
        }
        lemma_listing(*graph, ids@, links@, lab@, roots@, cs);
    }
    comps
}

} // verus!
