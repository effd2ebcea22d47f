//! Layout units: lone nodes, vertical pass-through columns and dual-inlet
//! combiners, plus the pairs of columns that feed a combiner side by side.

use std::collections::HashMap;

use vstd::prelude::*;

use crate::layout_graph::{
    has_edge, incoming_edges, lemma_incoming_contains, lemma_incoming_members, lemma_incoming_two, lemma_outgoing_two,
    lemma_lookup_some, lemma_outgoing_contains, lemma_outgoing_members, lookup, outgoing_edges,
    LayoutEdge, LayoutGraph, LayoutNode, LayoutNodeId,
};

verus! {

broadcast use vstd::std_specs::hash::group_hash_axioms;

/// Two-inlet combiner: one outlet, at least two inlets.
pub open spec fn spec_is_dual_inlet_combiner(n: LayoutNode) -> bool {
    n.inlets >= 2 && n.outlets == 1
}

/// One inlet, one outlet.
pub open spec fn spec_is_passthrough(n: LayoutNode) -> bool {
    n.inlets == 1 && n.outlets == 1
}

pub fn is_dual_inlet_combiner(node: &LayoutNode) -> (r: bool)
    ensures
        r == spec_is_dual_inlet_combiner(*node),
{
    node.inlets >= 2 && node.outlets == 1
}

pub fn is_passthrough(node: &LayoutNode) -> (r: bool)
    ensures
        r == spec_is_passthrough(*node),
{
    node.inlets == 1 && node.outlets == 1
}

/// A linear pass-through node: a pass-through node of the graph with at most
/// one incoming and at most one outgoing edge.
pub open spec fn is_lp(g: LayoutGraph, id: LayoutNodeId) -> bool {
    &&& g.spec_node(id) is Some
    &&& spec_is_passthrough(g.spec_node(id).unwrap())
    &&& incoming_edges(g.edge_seq(), id).len() <= 1
    &&& outgoing_edges(g.edge_seq(), id).len() <= 1
}

/// An edge between two linear pass-through nodes.
pub open spec fn lp_link(g: LayoutGraph, a: LayoutNodeId, b: LayoutNodeId) -> bool {
    is_lp(g, a) && is_lp(g, b) && has_edge(g.edge_seq(), a, b)
}

/// A linear pass-through node that no linear pass-through node feeds.
pub open spec fn is_column_head(g: LayoutGraph, h: LayoutNodeId) -> bool {
    is_lp(g, h) && forall|p: LayoutNodeId| !#[trigger] lp_link(g, p, h)
}

/// A node that feeds no linear pass-through node through a pass-through link.
pub open spec fn is_column_tail(g: LayoutGraph, t: LayoutNodeId) -> bool {
    forall|s: LayoutNodeId| !#[trigger] lp_link(g, t, s)
}

/// `rank` grows along every link between linear pass-through nodes.
pub open spec fn ranks_lp_links(g: LayoutGraph, rank: spec_fn(LayoutNodeId) -> nat) -> bool {
    forall|a: LayoutNodeId, b: LayoutNodeId| #[trigger] lp_link(g, a, b) ==> rank(a) < rank(b)
}

/// No cycle runs through linear pass-through nodes alone.
pub open spec fn lp_acyclic(g: LayoutGraph) -> bool {
    exists|rank: spec_fn(LayoutNodeId) -> nat| #[trigger] ranks_lp_links(g, rank)
}

/// Position `i` of `c` is wired to position `i + 1`.
pub open spec fn linked_at(g: LayoutGraph, c: Seq<LayoutNodeId>, i: int) -> bool {
    has_edge(g.edge_seq(), c[i], c[i + 1])
}

/// A maximal chain of linear pass-through nodes, top to bottom.
pub open spec fn column_ok(g: LayoutGraph, c: Seq<LayoutNodeId>) -> bool {
    &&& c.len() >= 1
    &&& forall|i: int| 0 <= i < c.len() ==> is_lp(g, #[trigger] c[i])
    &&& forall|i: int| 0 <= i < c.len() - 1 ==> #[trigger] linked_at(g, c, i)
    &&& is_column_head(g, c[0])
    &&& is_column_tail(g, c.last())
}

pub fn is_linear_passthrough(g: &LayoutGraph, id: LayoutNodeId) -> (r: bool)
    ensures
        r == is_lp(*g, id),
{
    match g.node(id) {
        None => false,
        Some(node) => {
            if !is_passthrough(node) {
                return false;
            }
            g.incoming(id).len() <= 1 && g.outgoing(id).len() <= 1
        },
    }
}

/// The unique linear pass-through successor of a linear pass-through node.
fn lp_successor(g: &LayoutGraph, t: LayoutNodeId) -> (r: Option<LayoutNodeId>)
    requires
        is_lp(*g, t),
    ensures
        match r {
            Some(s) => lp_link(*g, t, s),
            None => is_column_tail(*g, t),
        },
{
    let out = g.outgoing(t);
    if out.len() == 1 && is_linear_passthrough(g, out[0].to) {
        proof {
            lemma_outgoing_members(g.edge_seq(), t, 0);
        }
        Some(out[0].to)
    } else {
        proof {
            assert forall|s: LayoutNodeId| !#[trigger] lp_link(*g, t, s) by {
                if lp_link(*g, t, s) {
                    let k = choose|k: int|
                        0 <= k < g.edge_seq().len() && g.edge_seq()[k].from == t
                            && g.edge_seq()[k].to == s;
                    lemma_outgoing_contains(g.edge_seq(), t, k);
                    assert(out@[0] == g.edge_seq()[k]);
                }
            }
        }
        None
    }
}

/// Whether a linear pass-through node feeds `v`.
fn has_lp_pred(g: &LayoutGraph, v: LayoutNodeId) -> (r: bool)
    requires
        is_lp(*g, v),
    ensures
        r == !is_column_head(*g, v),
{
    let inc = g.incoming(v);
    if inc.len() == 1 && is_linear_passthrough(g, inc[0].from) {
        proof {
            lemma_incoming_members(g.edge_seq(), v, 0);
            assert(lp_link(*g, inc@[0].from, v));
        }
        true
    } else {
        proof {
            assert forall|p: LayoutNodeId| !#[trigger] lp_link(*g, p, v) by {
                if lp_link(*g, p, v) {
                    let k = choose|k: int|
                        0 <= k < g.edge_seq().len() && g.edge_seq()[k].from == p
                            && g.edge_seq()[k].to == v;
                    lemma_incoming_contains(g.edge_seq(), v, k);
                    assert(inc@[0] == g.edge_seq()[k]);
                }
            }
        }
        false
    }
}

/// A node of the graph is listed among its ids.
pub(crate) proof fn lemma_node_in_ids(g: LayoutGraph, id: LayoutNodeId)
    requires
        g.spec_node(id) is Some,
    ensures
        g.spec_node_ids().contains(id),
{
    lemma_lookup_some(g.node_seq(), id);
    let i = choose|i: int|
        0 <= i < g.node_seq().len() && g.node_seq()[i] == lookup(g.node_seq(), id).unwrap()
            && g.node_seq()[i].id == id;
    assert(g.spec_node_ids()[i] == id);
}

/// A duplicate-free sequence drawn from `b` is no longer than `b`.
proof fn lemma_distinct_within(a: Seq<LayoutNodeId>, b: Seq<LayoutNodeId>)
    requires
        a.no_duplicates(),
        forall|i: int| 0 <= i < a.len() ==> b.contains(#[trigger] a[i]),
    ensures
        a.len() <= b.len(),
{
    a.unique_seq_to_set();
    b.lemma_cardinality_of_set();
    assert(a.to_set().subset_of(b.to_set())) by {
        assert forall|x: LayoutNodeId| a.to_set().contains(x) implies b.to_set().contains(x) by {
            let i = choose|i: int| 0 <= i < a.len() && a[i] == x;
            assert(b.contains(a[i]));
        }
    }
    vstd::set_lib::lemma_len_subset(a.to_set(), b.to_set());
}

/// Follows linear pass-through successors from a column head.
fn build_chain(g: &LayoutGraph, head: LayoutNodeId) -> (c: Vec<LayoutNodeId>)
    requires
        is_column_head(*g, head),
        lp_acyclic(*g),
    ensures
        column_ok(*g, c@),
        c@[0] == head,
{
    let ghost rank = choose|rank: spec_fn(LayoutNodeId) -> nat| ranks_lp_links(*g, rank);
    let ghost ids = g.spec_node_ids();
    let mut c: Vec<LayoutNodeId> = Vec::new();
    c.push(head);
    let mut tail = head;
    let mut next = lp_successor(g, head);
    proof {
        lemma_node_in_ids(*g, head);
    }
    while next.is_some()
        invariant
            c@.len() >= 1,
            c@[0] == head,
            tail == c@.last(),
            is_column_head(*g, head),
            forall|a: LayoutNodeId, b: LayoutNodeId| #[trigger] lp_link(*g, a, b) ==> rank(a) < rank(b),
            forall|i: int| 0 <= i < c@.len() ==> is_lp(*g, #[trigger] c@[i]),
            forall|i: int| 0 <= i < c@.len() - 1 ==> #[trigger] linked_at(*g, c@, i),
            forall|i: int, j: int| 0 <= i < j < c@.len() ==> rank(c@[i]) < rank(c@[j]),
            forall|i: int| 0 <= i < c@.len() ==> ids.contains(#[trigger] c@[i]),
            ids == g.spec_node_ids(),
            match next {
                Some(s) => lp_link(*g, tail, s),
                None => is_column_tail(*g, tail),
            },
        decreases ids.len() - c@.len(),
    {
        let s = next.unwrap();
        let ghost old_c = c@;
        c.push(s);
        proof {
            lemma_node_in_ids(*g, s);
            assert(rank(tail) < rank(s));
            assert forall|i: int, j: int| 0 <= i < j < c@.len() implies rank(c@[i]) < rank(c@[j]) by {
                if j == c@.len() - 1 && i < j {
                    if i < old_c.len() - 1 {
                        assert(rank(old_c[i]) < rank(old_c[old_c.len() - 1]));
                    }
                    assert(c@[i] == old_c[i]);
                } else {
                    assert(c@[i] == old_c[i]);
                    assert(c@[j] == old_c[j]);
                }
            }
            assert forall|i: int| 0 <= i < c@.len() - 1 implies #[trigger] linked_at(*g, c@, i) by {
                if i < old_c.len() - 1 {
                    assert(linked_at(*g, old_c, i));
                    assert(c@[i] == old_c[i]);
                    assert(c@[i + 1] == old_c[i + 1]);
                } else {
                    assert(c@[i] == tail);
                }
            }
            assert forall|i: int| 0 <= i < c@.len() implies is_lp(*g, #[trigger] c@[i]) by {
                if i < old_c.len() {
                    assert(c@[i] == old_c[i]);
                }
            }
            assert(c@.no_duplicates()) by {
                assert forall|i: int, j: int| 0 <= i < c@.len() && 0 <= j < c@.len() && i != j
                    implies c@[i] != c@[j] by {
                    if i < j {
                        assert(rank(c@[i]) < rank(c@[j]));
                    } else {
                        assert(rank(c@[j]) < rank(c@[i]));
                    }
                }
            }
            assert forall|i: int| 0 <= i < c@.len() implies ids.contains(#[trigger] c@[i]) by {
                if i < old_c.len() {
                    assert(c@[i] == old_c[i]);
                }
            }
            lemma_distinct_within(c@, ids);
        }
        tail = s;
        next = lp_successor(g, s);
    }
    c
}

/// Two edges into a node with at most one incoming edge have the same source.
proof fn lemma_single_pred(g: LayoutGraph, p: LayoutNodeId, q: LayoutNodeId, v: LayoutNodeId)
    requires
        incoming_edges(g.edge_seq(), v).len() <= 1,
        has_edge(g.edge_seq(), p, v),
        has_edge(g.edge_seq(), q, v),
    ensures
        p == q,
{
    let e = g.edge_seq();
    let a = choose|k: int| 0 <= k < e.len() && e[k].from == p && e[k].to == v;
    let b = choose|k: int| 0 <= k < e.len() && e[k].from == q && e[k].to == v;
    if a < b {
        lemma_incoming_two(e, v, a, b);
    } else if b < a {
        lemma_incoming_two(e, v, b, a);
    }
}

/// Two edges out of a node with at most one outgoing edge have the same target.
proof fn lemma_single_succ(g: LayoutGraph, t: LayoutNodeId, p: LayoutNodeId, q: LayoutNodeId)
    requires
        outgoing_edges(g.edge_seq(), t).len() <= 1,
        has_edge(g.edge_seq(), t, p),
        has_edge(g.edge_seq(), t, q),
    ensures
        p == q,
{
    let e = g.edge_seq();
    let a = choose|k: int| 0 <= k < e.len() && e[k].from == t && e[k].to == p;
    let b = choose|k: int| 0 <= k < e.len() && e[k].from == t && e[k].to == q;
    if a < b {
        lemma_outgoing_two(e, t, a, b);
    } else if b < a {
        lemma_outgoing_two(e, t, b, a);
    }
}

/// A chain of pass-through links from some column head up to `v`.
proof fn lemma_back_path(g: LayoutGraph, rank: spec_fn(LayoutNodeId) -> nat, v: LayoutNodeId) -> (path: Seq<LayoutNodeId>)
    requires
        ranks_lp_links(g, rank),
        is_lp(g, v),
    ensures
        path.len() >= 1,
        path.last() == v,
        is_column_head(g, path[0]),
        forall|i: int| 0 <= i < path.len() - 1 ==> lp_link(g, #[trigger] path[i], path[i + 1]),
    decreases rank(v),
{
    if is_column_head(g, v) {
        seq![v]
    } else {
        let p = choose|p: LayoutNodeId| #[trigger] lp_link(g, p, v);
        assert(rank(p) < rank(v));
        let prefix = lemma_back_path(g, rank, p);
        let path = prefix.push(v);
        assert forall|i: int| 0 <= i < path.len() - 1 implies lp_link(g, #[trigger] path[i], path[i + 1]) by {
            if i < prefix.len() - 1 {
                assert(path[i] == prefix[i]);
                assert(path[i + 1] == prefix[i + 1]);
                assert(lp_link(g, prefix[i], prefix[i + 1]));
            } else {
                assert(path[i] == p);
            }
        }
        assert(path[0] == prefix[0]);
        path
    }
}

/// A column that starts where a chain of pass-through links starts follows it.
proof fn lemma_chain_follows(g: LayoutGraph, c: Seq<LayoutNodeId>, path: Seq<LayoutNodeId>, n: int)
    requires
        column_ok(g, c),
        path.len() >= 1,
        path[0] == c[0],
        forall|i: int| 0 <= i < path.len() - 1 ==> lp_link(g, #[trigger] path[i], path[i + 1]),
        0 <= n < path.len(),
    ensures
        n < c.len(),
        c[n] == path[n],
    decreases n,
{
    if n > 0 {
        lemma_chain_follows(g, c, path, n - 1);
        assert(lp_link(g, path[n - 1], path[n]));
        if n - 1 == c.len() - 1 {
            assert(lp_link(g, c.last(), path[n]));
        }
        assert(linked_at(g, c, n - 1));
        lemma_single_succ(g, c[n - 1], c[n], path[n]);
    }
}

/// Columns that share a node start at the same head.
proof fn lemma_columns_meet(g: LayoutGraph, c1: Seq<LayoutNodeId>, c2: Seq<LayoutNodeId>, k: int, m: int)
    requires
        column_ok(g, c1),
        column_ok(g, c2),
        0 <= k < c1.len(),
        0 <= m < c2.len(),
        c1[k] == c2[m],
    ensures
        c1[0] == c2[0],
    decreases k + m,
{
    if k == 0 && m > 0 {
        assert(linked_at(g, c2, m - 1));
        assert(lp_link(g, c2[m - 1], c1[0]));
    } else if m == 0 && k > 0 {
        assert(linked_at(g, c1, k - 1));
        assert(lp_link(g, c1[k - 1], c2[0]));
    } else if k > 0 && m > 0 {
        assert(linked_at(g, c1, k - 1));
        assert(linked_at(g, c2, m - 1));
        lemma_single_pred(g, c1[k - 1], c2[m - 1], c1[k]);
        lemma_columns_meet(g, c1, c2, k - 1, m - 1);
    }
}

/// The contents of each column vector.
pub open spec fn cols_view(cols: Seq<Vec<LayoutNodeId>>) -> Seq<Seq<LayoutNodeId>> {
    cols.map_values(|c: Vec<LayoutNodeId>| c@)
}

/// Every entry is a maximal pass-through chain and the heads increase.
pub open spec fn columns_valid(g: LayoutGraph, cs: Seq<Seq<LayoutNodeId>>) -> bool {
    &&& forall|k: int| 0 <= k < cs.len() ==> column_ok(g, #[trigger] cs[k])
    &&& forall|k: int, l: int| 0 <= k < l < cs.len() ==> cs[k][0] < cs[l][0]
}

/// Every linear pass-through node lies in some column.
pub open spec fn columns_cover(g: LayoutGraph, cs: Seq<Seq<LayoutNodeId>>) -> bool {
    forall|v: LayoutNodeId|
        is_lp(g, v) ==> exists|k: int, i: int|
            0 <= k < cs.len() && 0 <= i < cs[k].len() && #[trigger] cs[k][i] == v
}

/// No node lies in two different columns.
pub open spec fn columns_disjoint(cs: Seq<Seq<LayoutNodeId>>) -> bool {
    forall|k: int, l: int, i: int, j: int|
        0 <= k < cs.len() && 0 <= l < cs.len() && 0 <= i < cs[k].len() && 0 <= j < cs[l].len()
            && #[trigger] cs[k][i] == #[trigger] cs[l][j] ==> k == l
}

spec fn heads_from(cs: Seq<Seq<LayoutNodeId>>, ids: Seq<LayoutNodeId>, i: int) -> bool {
    forall|k: int|
        #![trigger cs[k]]
        0 <= k < cs.len() ==> exists|j: int| 0 <= j < i && #[trigger] ids[j] == cs[k][0]
}

spec fn heads_covered(g: LayoutGraph, cs: Seq<Seq<LayoutNodeId>>, ids: Seq<LayoutNodeId>, i: int) -> bool {
    forall|j: int|
        0 <= j < i && is_column_head(g, #[trigger] ids[j]) ==> exists|k: int|
            0 <= k < cs.len() && cs[k][0] == ids[j]
}

proof fn lemma_columns_step(
    g: LayoutGraph,
    cs: Seq<Seq<LayoutNodeId>>,
    ids: Seq<LayoutNodeId>,
    i: int,
    c: Seq<LayoutNodeId>,
)
    requires
        0 <= i < ids.len(),
        forall|a: int, b: int| 0 <= a < b < ids.len() ==> ids[a] < ids[b],
        columns_valid(g, cs),
        heads_from(cs, ids, i),
        heads_covered(g, cs, ids, i),
        column_ok(g, c),
        c[0] == ids[i],
    ensures
        columns_valid(g, cs.push(c)),
        heads_from(cs.push(c), ids, i + 1),
        heads_covered(g, cs.push(c), ids, i + 1),
{
    let ncs = cs.push(c);
    assert forall|k: int| 0 <= k < ncs.len() implies column_ok(g, #[trigger] ncs[k]) by {
        if k < cs.len() {
            assert(ncs[k] == cs[k]);
        }
    }
    assert forall|k: int, l: int| 0 <= k < l < ncs.len() implies ncs[k][0] < ncs[l][0] by {
        assert(ncs[k] == cs[k]);
        if l < cs.len() {
            assert(ncs[l] == cs[l]);
        } else {
            let j = choose|j: int| 0 <= j < i && #[trigger] ids[j] == cs[k][0];
            assert(ids[j] < ids[i]);
        }
    }
    assert forall|k: int| #![trigger ncs[k]] 0 <= k < ncs.len() implies exists|j: int|
        0 <= j < i + 1 && #[trigger] ids[j] == ncs[k][0] by {
        if k < cs.len() {
            assert(ncs[k] == cs[k]);
            let j = choose|j: int| 0 <= j < i && #[trigger] ids[j] == cs[k][0];
            assert(ids[j] == ncs[k][0]);
        } else {
            assert(ids[i] == ncs[k][0]);
        }
    }
    assert forall|j: int|
        0 <= j < i + 1 && is_column_head(g, #[trigger] ids[j]) implies exists|k: int|
            0 <= k < ncs.len() && ncs[k][0] == ids[j] by {
        if j < i {
            let k = choose|k: int| 0 <= k < cs.len() && cs[k][0] == ids[j];
            assert(ncs[k] == cs[k]);
        } else {
            assert(ncs[cs.len() as int] == c);
        }
    }
}

proof fn lemma_columns_complete(g: LayoutGraph, cs: Seq<Seq<LayoutNodeId>>, ids: Seq<LayoutNodeId>)
    requires
        lp_acyclic(g),
        ids == g.spec_node_ids(),
        columns_valid(g, cs),
        heads_covered(g, cs, ids, ids.len() as int),
    ensures
        columns_cover(g, cs),
        columns_disjoint(cs),
{
    let rank = choose|rank: spec_fn(LayoutNodeId) -> nat| ranks_lp_links(g, rank);
    assert forall|v: LayoutNodeId| is_lp(g, v) implies exists|k: int, i: int|
        0 <= k < cs.len() && 0 <= i < cs[k].len() && #[trigger] cs[k][i] == v by {
        let path = lemma_back_path(g, rank, v);
        let h = path[0];
        lemma_node_in_ids(g, h);
        let j = choose|j: int| 0 <= j < ids.len() && ids[j] == h;
        assert(is_column_head(g, ids[j]));
        let k = choose|k: int| 0 <= k < cs.len() && cs[k][0] == ids[j];
        assert(column_ok(g, cs[k]));
        lemma_chain_follows(g, cs[k], path, path.len() - 1);
        assert(cs[k][path.len() - 1] == v);
    }
    assert forall|k: int, l: int, a: int, b: int|
        0 <= k < cs.len() && 0 <= l < cs.len() && 0 <= a < cs[k].len() && 0 <= b < cs[l].len()
            && #[trigger] cs[k][a] == #[trigger] cs[l][b] implies k == l by {
        assert(column_ok(g, cs[k]));
        assert(column_ok(g, cs[l]));
        lemma_columns_meet(g, cs[k], cs[l], a, b);
        if k < l {
            assert(cs[k][0] < cs[l][0]);
        } else if l < k {
            assert(cs[l][0] < cs[k][0]);
        }
    }
}

/// Maximal chains of linear pass-through nodes (one inlet, one outlet, at
/// most one wire in and one wire out), each listed top to bottom, the columns
/// ordered by their first node's id.
pub fn find_vertical_columns(g: &LayoutGraph) -> (cols: Vec<Vec<LayoutNodeId>>)
    requires
        lp_acyclic(*g),
    ensures
        columns_valid(*g, cols_view(cols@)),
        columns_cover(*g, cols_view(cols@)),
        columns_disjoint(cols_view(cols@)),
{
    let ids = g.sorted_node_ids();
    let mut cols: Vec<Vec<LayoutNodeId>> = Vec::new();
    let mut i: usize = 0;
    assert(cols_view(cols@) =~= Seq::<Seq<LayoutNodeId>>::empty());
    while i < ids.len()
        invariant
            0 <= i <= ids.len(),
            lp_acyclic(*g),
            ids@ == g.spec_node_ids(),
            forall|a: int, b: int| 0 <= a < b < ids@.len() ==> ids@[a] < ids@[b],
            columns_valid(*g, cols_view(cols@)),
            heads_from(cols_view(cols@), ids@, i as int),
            heads_covered(*g, cols_view(cols@), ids@, i as int),
        decreases ids.len() - i,
    {
        let id = ids[i];
        let head = is_linear_passthrough(g, id) && !has_lp_pred(g, id);
        let ghost old_view = cols_view(cols@);
        if head {
            let c = build_chain(g, id);
            proof {
                lemma_columns_step(*g, old_view, ids@, i as int, c@);
            }
            cols.push(c);
            assert(cols_view(cols@) =~= old_view.push(c@));
        } else {
            assert forall|j: int|
                0 <= j < i + 1 && is_column_head(*g, #[trigger] ids@[j]) implies exists|k: int|
                    0 <= k < old_view.len() && old_view[k][0] == ids@[j] by {
            }
            assert forall|k: int| #![trigger old_view[k]] 0 <= k < old_view.len() implies exists|j: int|
                0 <= j < i + 1 && #[trigger] ids@[j] == old_view[k][0] by {
                let j = choose|j: int| 0 <= j < i && #[trigger] ids@[j] == old_view[k][0];
            }
        }
        i = i + 1;
    }
    proof {
        lemma_columns_complete(*g, cols_view(cols@), ids@);
    }
    cols
}

/// Two pass-through columns feeding a dual-inlet combiner, placed side by side.
#[derive(Clone, Copy, Debug, PartialEq, Eq, Structural)]
pub struct FanInPair {
    pub left: usize,
    pub right: usize,
    pub combine: usize,
}

/// A layout unit: lone node, vertical column, or dual-inlet combiner.
#[derive(Clone, Debug, PartialEq, Eq)]
pub struct LayoutUnit {
    pub nodes: Vec<LayoutNodeId>,
    /// Vertically stacked pass-through chain (same port X, increasing Y).
    pub column: bool,
    /// Two-inlet combiner: stretched/resized at placement time.
    pub dual_inlet: bool,
}

impl LayoutUnit {
    pub fn singleton(id: LayoutNodeId, dual_inlet: bool) -> (u: Self)
        ensures
            u.nodes@ == seq![id],
            !u.column,
            u.dual_inlet == dual_inlet,
    {
        let mut nodes: Vec<LayoutNodeId> = Vec::new();
        nodes.push(id);
        LayoutUnit { nodes, column: false, dual_inlet }
    }

    pub fn column(nodes: Vec<LayoutNodeId>) -> (u: Self)
        ensures
            u.nodes@ == nodes@,
            u.column,
            !u.dual_inlet,
    {
        LayoutUnit { nodes, column: true, dual_inlet: false }
    }

    pub fn primary(&self) -> (id: LayoutNodeId)
        requires
            self.nodes@.len() >= 1,
        ensures
            id == self.nodes@[0],
    {
        self.nodes[0]
    }

    pub fn head(&self) -> (id: LayoutNodeId)
        requires
            self.nodes@.len() >= 1,
        ensures
            id == self.nodes@[0],
    {
        self.primary()
    }

    pub fn tail(&self) -> (id: LayoutNodeId)
        requires
            self.nodes@.len() >= 1,
        ensures
            id == self.nodes@.last(),
    {
        self.nodes[self.nodes.len() - 1]
    }

    pub fn is_column(&self) -> (r: bool)
        ensures
            r == self.column,
    {
        self.column
    }

    /// A column of at least two nodes.
    pub fn is_block(&self) -> (r: bool)
        ensures
            r == (self.column && self.nodes@.len() >= 2),
    {
        self.column && self.nodes.len() >= 2
    }

    pub fn is_dual_inlet(&self) -> (r: bool)
        ensures
            r == self.dual_inlet,
    {
        self.dual_inlet
    }
}

/// Units of a graph, the unit of each node, and the combiner fan-in pairs.
#[derive(Clone, Debug)]
pub struct UnitLayout {
    pub units: Vec<LayoutUnit>,
    pub node_to_unit: HashMap<LayoutNodeId, usize>,
    pub fanin_pairs: Vec<FanInPair>,
}

/// First index at or after `k` of `pairs` satisfying `pred`.
pub open spec fn first_pair_from(pairs: Seq<FanInPair>, pred: spec_fn(FanInPair) -> bool, k: int) -> Option<int>
    decreases pairs.len() - k,
{
    if k < 0 || k >= pairs.len() {
        None
    } else if pred(pairs[k]) {
        Some(k)
    } else {
        first_pair_from(pairs, pred, k + 1)
    }
}

/// First index of `pairs` satisfying `pred`.
pub open spec fn first_pair_index(pairs: Seq<FanInPair>, pred: spec_fn(FanInPair) -> bool) -> Option<int> {
    first_pair_from(pairs, pred, 0)
}

pub open spec fn touches_unit(ix: usize) -> spec_fn(FanInPair) -> bool {
    |p: FanInPair| p.left == ix || p.right == ix || p.combine == ix
}

pub open spec fn left_is(ix: usize) -> spec_fn(FanInPair) -> bool {
    |p: FanInPair| p.left == ix
}

fn find_pair(pairs: &Vec<FanInPair>, ix: usize, by_left_only: bool) -> (r: Option<&FanInPair>)
    ensures
        ({
            let pred = if by_left_only { left_is(ix) } else { touches_unit(ix) };
            match first_pair_index(pairs@, pred) {
                Some(i) => r == Some(&pairs@[i]),
                None => r is None,
            }
        }),
{
    let ghost pred = if by_left_only { left_is(ix) } else { touches_unit(ix) };
    let mut k: usize = 0;
    while k < pairs.len()
        invariant
            0 <= k <= pairs.len(),
            pred == (if by_left_only { left_is(ix) } else { touches_unit(ix) }),
            first_pair_index(pairs@, pred) == first_pair_from(pairs@, pred, k as int),
        decreases pairs.len() - k,
    {
        let p = &pairs[k];
        let hit = if by_left_only {
            p.left == ix
        } else {
            p.left == ix || p.right == ix || p.combine == ix
        };
        if hit {
            return Some(p);
        }
        k = k + 1;
    }
    None
}

impl UnitLayout {
    pub fn unit(&self, id: LayoutNodeId) -> (u: &LayoutUnit)
        requires
            self.node_to_unit@.contains_key(id),
            self.node_to_unit@[id] < self.units@.len(),
        ensures
            *u == self.units@[self.node_to_unit@[id] as int],
    {
        let ix = self.unit_index(id);
        &self.units[ix]
    }

    pub fn unit_index(&self, id: LayoutNodeId) -> (ix: usize)
        requires
            self.node_to_unit@.contains_key(id),
        ensures
            ix == self.node_to_unit@[id],
    {
        *self.node_to_unit.get(&id).unwrap()
    }

    /// The first fan-in pair that involves unit `unit_ix` in any role.
    pub fn fanin_pair_for(&self, unit_ix: usize) -> (r: Option<&FanInPair>)
        ensures
            match first_pair_index(self.fanin_pairs@, touches_unit(unit_ix)) {
                Some(i) => r == Some(&self.fanin_pairs@[i]),
                None => r is None,
            },
    {
        find_pair(&self.fanin_pairs, unit_ix, false)
    }

    /// The first fan-in pair whose left column is unit `unit_ix`.
    pub fn fanin_pair_left(&self, unit_ix: usize) -> (r: Option<&FanInPair>)
        ensures
            match first_pair_index(self.fanin_pairs@, left_is(unit_ix)) {
                Some(i) => r == Some(&self.fanin_pairs@[i]),
                None => r is None,
            },
    {
        find_pair(&self.fanin_pairs, unit_ix, true)
    }
}

/// Index of the first entry with the smallest port, ignoring entries whose
/// unit is `skip`.
pub open spec fn first_min_port(f: Seq<(usize, usize)>, skip: Option<usize>) -> Option<int>
    decreases f.len(),
{
    if f.len() == 0 {
        None
    } else {
        let prev = first_min_port(f.drop_last(), skip);
        let k = f.len() - 1;
        if skip == Some(f[k].0) {
            prev
        } else {
            match prev {
                None => Some(k),
                Some(p) => if f[k].1 < f[p].1 {
                    Some(k)
                } else {
                    prev
                },
            }
        }
    }
}

/// The pair a combiner gets from its `(feeder unit, inlet port)` entries: the
/// unit on the lowest inlet (first such wire) goes left, the lowest-inlet unit
/// among the others goes right. This is what ordering the entries by port
/// (stably) and merging repeated units picks as its first two entries.
pub open spec fn pair_from_feeders(f: Seq<(usize, usize)>, combine: usize) -> Option<FanInPair> {
    match first_min_port(f, None) {
        None => None,
        Some(a) => match first_min_port(f, Some(f[a].0)) {
            None => None,
            Some(b) => Some(FanInPair { left: f[a].0, right: f[b].0, combine }),
        },
    }
}

/// `(unit of the source, inlet port)` for each wire into a combiner.
pub open spec fn feeders_of(edges_in: Seq<LayoutEdge>, node_to_unit: Map<LayoutNodeId, usize>) -> Seq<(usize, usize)> {
    edges_in.map_values(|e: LayoutEdge| (node_to_unit[e.from], e.to_port))
}

/// The fan-in pair of every dual-inlet unit that has one, in unit order.
pub open spec fn spec_fanin_pairs(
    units: Seq<LayoutUnit>,
    node_to_unit: Map<LayoutNodeId, usize>,
    edges: Seq<LayoutEdge>,
) -> Seq<FanInPair>
    decreases units.len(),
{
    if units.len() == 0 {
        Seq::empty()
    } else {
        let rest = spec_fanin_pairs(units.drop_last(), node_to_unit, edges);
        let u = units.last();
        if u.dual_inlet {
            match pair_from_feeders(
                feeders_of(incoming_edges(edges, u.nodes@[0]), node_to_unit),
                (units.len() - 1) as usize,
            ) {
                Some(p) => rest.push(p),
                None => rest,
            }
        } else {
            rest
        }
    }
}

fn first_min_port_exec(f: &Vec<(usize, usize)>, skip: Option<usize>) -> (r: Option<usize>)
    ensures
        r is Some <==> first_min_port(f@, skip) is Some,
        r is Some ==> first_min_port(f@, skip) == Some(r.unwrap() as int),
        r is Some ==> r.unwrap() < f@.len(),
{
    let mut best: Option<usize> = None;
    let mut i: usize = 0;
    while i < f.len()
        invariant
            0 <= i <= f@.len(),
            match first_min_port(f@.take(i as int), skip) {
                Some(k) => best == Some(k as usize) && 0 <= k < i,
                None => best is None,
            },
        decreases f.len() - i,
    {
        assert(f@.take(i + 1).drop_last() =~= f@.take(i as int));
        let entry = f[i];
        let skipped = match skip {
            Some(u) => u == entry.0,
            None => false,
        };
        if !skipped {
            match best {
                None => {
                    best = Some(i);
                },
                Some(p) => {
                    if entry.1 < f[p].1 {
                        best = Some(i);
                    }
                },
            }
        }
        i = i + 1;
    }
    assert(f@.take(i as int) =~= f@);
    best
}

proof fn lemma_short_feeders(f: Seq<(usize, usize)>, combine: usize)
    requires
        f.len() < 2,
    ensures
        pair_from_feeders(f, combine) is None,
{
    if f.len() == 1 {
        assert(f.drop_last() =~= Seq::<(usize, usize)>::empty());
        assert(first_min_port(f.drop_last(), None) is None);
        assert(first_min_port(f.drop_last(), Some(f[0].0)) is None);
        assert(first_min_port(f, None) == Some(0int));
    }
}

/// Pair two upstream units that feed a dual-inlet combiner (inlet 0 left,
/// inlet 1 right), for every dual-inlet unit with two distinct feeders.
pub fn find_combine_fanin_pairs(units: &UnitLayout, graph: &LayoutGraph) -> (pairs: Vec<FanInPair>)
    requires
        forall|k: int|
            0 <= k < units.units@.len() && (#[trigger] units.units@[k]).dual_inlet
                ==> units.units@[k].nodes@.len() >= 1,
        forall|k: int, j: int|
            0 <= k < units.units@.len() && (#[trigger] units.units@[k]).dual_inlet && 0 <= j
                < incoming_edges(graph.edge_seq(), units.units@[k].nodes@[0]).len()
                && incoming_edges(graph.edge_seq(), units.units@[k].nodes@[0]).len() >= 2
                ==> units.node_to_unit@.contains_key(
                #[trigger] incoming_edges(graph.edge_seq(), units.units@[k].nodes@[0])[j].from,
            ),
    ensures
        pairs@ == spec_fanin_pairs(units.units@, units.node_to_unit@, graph.edge_seq()),
{
    let mut pairs: Vec<FanInPair> = Vec::new();
    let mut c: usize = 0;
    while c < units.units.len()
        invariant
            0 <= c <= units.units@.len(),
            pairs@ == spec_fanin_pairs(units.units@.take(c as int), units.node_to_unit@, graph.edge_seq()),
            forall|k: int|
                0 <= k < units.units@.len() && (#[trigger] units.units@[k]).dual_inlet
                    ==> units.units@[k].nodes@.len() >= 1,
            forall|k: int, j: int|
                0 <= k < units.units@.len() && (#[trigger] units.units@[k]).dual_inlet && 0 <= j
                    < incoming_edges(graph.edge_seq(), units.units@[k].nodes@[0]).len()
                    && incoming_edges(graph.edge_seq(), units.units@[k].nodes@[0]).len() >= 2
                    ==> units.node_to_unit@.contains_key(
                    #[trigger] incoming_edges(graph.edge_seq(), units.units@[k].nodes@[0])[j].from,
                ),
        decreases units.units.len() - c,
    {
        assert(units.units@.take(c + 1).drop_last() =~= units.units@.take(c as int));
        assert(units.units@.take(c + 1).last() == units.units@[c as int]);
        let unit = &units.units[c];
        let ghost prev = pairs@;
        let ghost tk = units.units@.take(c + 1);
        assert(spec_fanin_pairs(tk, units.node_to_unit@, graph.edge_seq()) == if unit.dual_inlet {
            match pair_from_feeders(
                feeders_of(incoming_edges(graph.edge_seq(), unit.nodes@[0]), units.node_to_unit@),
                c,
            ) {
                Some(p) => prev.push(p),
                None => prev,
            }
        } else {
            prev
        }) by {
            assert(tk.last() == units.units@[c as int]);
            assert(tk.drop_last() =~= units.units@.take(c as int));
            assert((tk.len() - 1) as usize == c);
        }
        if unit.dual_inlet {
            let combine_id = unit.nodes[0];
            let edges = graph.incoming(combine_id);
            let ghost spec_f = feeders_of(edges@, units.node_to_unit@);
            if edges.len() >= 2 {
                let mut f: Vec<(usize, usize)> = Vec::new();
                let mut j: usize = 0;
                while j < edges.len()
                    invariant
                        0 <= j <= edges@.len(),
                        edges@.len() >= 2,
                        edges@ == incoming_edges(graph.edge_seq(), units.units@[c as int].nodes@[0]),
                        0 <= c < units.units@.len(),
                        units.units@[c as int].dual_inlet,
                        forall|k: int, j: int|
                            0 <= k < units.units@.len() && (#[trigger] units.units@[k]).dual_inlet && 0 <= j
                                < incoming_edges(graph.edge_seq(), units.units@[k].nodes@[0]).len()
                                && incoming_edges(graph.edge_seq(), units.units@[k].nodes@[0]).len() >= 2
                                ==> units.node_to_unit@.contains_key(
                                #[trigger] incoming_edges(graph.edge_seq(), units.units@[k].nodes@[0])[j].from,
                            ),
                        f@ == feeders_of(edges@.take(j as int), units.node_to_unit@),
                        pairs@ == prev,
                    decreases edges.len() - j,
                {
                    let e = edges[j];
                    assert(units.node_to_unit@.contains_key(edges@[j as int].from));
                    let u = *units.node_to_unit.get(&e.from).unwrap();
                    f.push((u, e.to_port));
                    j = j + 1;
                    assert(f@ =~= feeders_of(edges@.take(j as int), units.node_to_unit@));
                }
                assert(edges@.take(j as int) =~= edges@);
                assert(f@ == spec_f);
                let left = first_min_port_exec(&f, None);
                match left {
                    Some(a) => {
                        let right = first_min_port_exec(&f, Some(f[a].0));
                        match right {
                            Some(b) => {
                                pairs.push(FanInPair { left: f[a].0, right: f[b].0, combine: c });
                                assert(pairs@ == prev.push(pair_from_feeders(spec_f, c).unwrap()));
                            },
                            None => {
                                assert(pair_from_feeders(spec_f, c) is None);
                            },
                        }
                    },
                    None => {
                        assert(pair_from_feeders(spec_f, c) is None);
                    },
                }
                assert(pairs@ == spec_fanin_pairs(tk, units.node_to_unit@, graph.edge_seq()));
            } else {
                proof {
                    lemma_short_feeders(spec_f, c);
                }
            }
        }
        proof {
            let tk = units.units@.take(c + 1);
            assert(tk.last() == units.units@[c as int]);
            assert((tk.len() - 1) as usize == c);
        }
        c = c + 1;
    }
    assert(units.units@.take(c as int) =~= units.units@);
    pairs
}

/// The nodes of each unit.
pub open spec fn unit_nodes(units: Seq<LayoutUnit>) -> Seq<Seq<LayoutNodeId>> {
    units.map_values(|u: LayoutUnit| u.nodes@)
}

/// The ids among `ids` that are not linear pass-through nodes, in order.
pub open spec fn non_lp_ids(g: LayoutGraph, ids: Seq<LayoutNodeId>) -> Seq<LayoutNodeId>
    decreases ids.len(),
{
    if ids.len() == 0 {
        Seq::empty()
    } else {
        let rest = non_lp_ids(g, ids.drop_last());
        if is_lp(g, ids.last()) {
            rest
        } else {
            rest.push(ids.last())
        }
    }
}

/// Every wire into a dual-inlet combiner with two or more wires comes from a
/// node of the graph.
pub open spec fn combiner_feeders_known(g: LayoutGraph) -> bool {
    forall|c: LayoutNodeId, j: int|
        g.spec_node(c) is Some && spec_is_dual_inlet_combiner(g.spec_node(c).unwrap())
            && incoming_edges(g.edge_seq(), c).len() >= 2 && 0 <= j < incoming_edges(
            g.edge_seq(),
            c,
        ).len() ==> g.spec_node(#[trigger] incoming_edges(g.edge_seq(), c)[j].from) is Some
}

/// `x` lies in one of the sequences of `cs`.
pub open spec fn in_some_column(cs: Seq<Seq<LayoutNodeId>>, x: LayoutNodeId) -> bool {
    exists|k: int, i: int| 0 <= k < cs.len() && 0 <= i < cs[k].len() && #[trigger] cs[k][i] == x
}

fn copy_ids(v: &Vec<LayoutNodeId>) -> (r: Vec<LayoutNodeId>)
    ensures
        r@ == v@,
{
    let mut r: Vec<LayoutNodeId> = Vec::new();
    let mut i: usize = 0;
    while i < v.len()
        invariant
            0 <= i <= v@.len(),
            r@ == v@.take(i as int),
        decreases v.len() - i,
    {
        r.push(v[i]);
        i = i + 1;
        assert(r@ =~= v@.take(i as int));
    }
    assert(v@.take(i as int) =~= v@);
    r
}

/// One column unit per column, and the unit index of each column node.
fn column_units(cols: &Vec<Vec<LayoutNodeId>>) -> (r: (Vec<LayoutUnit>, HashMap<LayoutNodeId, usize>))
    ensures
        r.0@.len() == cols@.len(),
        forall|k: int|
            0 <= k < cols@.len() ==> (#[trigger] r.0@[k]).nodes@ == cols@[k]@ && r.0@[k].column
                && !r.0@[k].dual_inlet,
        forall|x: LayoutNodeId|
            #[trigger] r.1@.contains_key(x) <==> in_some_column(cols_view(cols@), x),
        forall|x: LayoutNodeId|
            #[trigger] r.1@.contains_key(x) ==> r.1@[x] < cols@.len() && cols@[r.1@[x] as int]@.contains(x),
{
    let mut units: Vec<LayoutUnit> = Vec::new();
    let mut map: HashMap<LayoutNodeId, usize> = HashMap::new();
    let ghost cs = cols_view(cols@);
    let mut k: usize = 0;
    while k < cols.len()
        invariant
            0 <= k <= cols@.len(),
            cs == cols_view(cols@),
            units@.len() == k,
            forall|kk: int|
                0 <= kk < k ==> (#[trigger] units@[kk]).nodes@ == cols@[kk]@ && units@[kk].column
                    && !units@[kk].dual_inlet,
            forall|x: LayoutNodeId|
                #[trigger] map@.contains_key(x) <==> in_some_column(cs.take(k as int), x),
            forall|x: LayoutNodeId|
                #[trigger] map@.contains_key(x) ==> map@[x] < k && cols@[map@[x] as int]@.contains(x),
        decreases cols.len() - k,
    {
        let col = &cols[k];
        let mut i: usize = 0;
        while i < col.len()
            invariant
                0 <= i <= col@.len(),
                0 <= k < cols@.len(),
                col == cols@[k as int],
                cs == cols_view(cols@),
                forall|x: LayoutNodeId|
                    #[trigger] map@.contains_key(x) <==> (in_some_column(cs.take(k as int), x)
                        || col@.take(i as int).contains(x)),
                forall|x: LayoutNodeId|
                    #[trigger] map@.contains_key(x) ==> map@[x] <= k && cols@[map@[x] as int]@.contains(x),
            decreases col.len() - i,
        {
            let x = col[i];
            map.insert(x, k);
            proof {
                let t1 = col@.take(i + 1);
                let t0 = col@.take(i as int);
                assert forall|y: LayoutNodeId|
                    #[trigger] map@.contains_key(y) <==> (in_some_column(cs.take(k as int), y)
                        || t1.contains(y)) by {
                    if t1.contains(y) && y != x {
                        let j = choose|j: int| 0 <= j < t1.len() && t1[j] == y;
                        assert(t0[j] == y);
                    }
                    if t0.contains(y) {
                        let j = choose|j: int| 0 <= j < t0.len() && t0[j] == y;
                        assert(t1[j] == y);
                    }
                    if y == x {
                        assert(t1[i as int] == y);
                    }
                }
                assert(col@[i as int] == x);
            }
            i = i + 1;
        }
        assert(col@.take(i as int) =~= col@);
        units.push(LayoutUnit::column(copy_ids(col)));
        proof {
            assert forall|x: LayoutNodeId|
                #[trigger] map@.contains_key(x) <==> in_some_column(cs.take(k + 1), x) by {
                let t = cs.take(k + 1);
                if col@.contains(x) {
                    let j = choose|j: int| 0 <= j < col@.len() && col@[j] == x;
                    assert(t[k as int] == col@);
                    assert(t[k as int][j] == x);
                }
                if in_some_column(cs.take(k as int), x) {
                    let (kk, ii) = choose|kk: int, ii: int|
                        0 <= kk < cs.take(k as int).len() && 0 <= ii < cs.take(k as int)[kk].len()
                            && #[trigger] cs.take(k as int)[kk][ii] == x;
                    assert(t[kk][ii] == x);
                }
                if in_some_column(t, x) {
                    let (kk, ii) = choose|kk: int, ii: int|
                        0 <= kk < t.len() && 0 <= ii < t[kk].len() && #[trigger] t[kk][ii] == x;
                    if kk < k {
                        assert(cs.take(k as int)[kk][ii] == x);
                    } else {
                        assert(col@[ii] == x);
                    }
                }
            }
        }
        k = k + 1;
    }
    assert(cs.take(k as int) =~= cs);
    (units, map)
}

/// What [`build_unit_layout`] builds: first the pass-through columns (each a
/// maximal chain, ordered by head, covering every pass-through node once),
/// then one single-node unit for every other node in id order, flagged when
/// it is a dual-inlet combiner; `node_to_unit` maps each node to a unit
/// holding it.
pub open spec fn built_units(g: LayoutGraph, units: Seq<LayoutUnit>, node_to_unit: Map<LayoutNodeId, usize>) -> bool {
    let singles = non_lp_ids(g, g.spec_node_ids());
    let m = units.len() - singles.len();
    &&& m >= 0
    &&& columns_valid(g, unit_nodes(units).take(m))
    &&& columns_cover(g, unit_nodes(units).take(m))
    &&& columns_disjoint(unit_nodes(units).take(m))
    &&& forall|k: int| 0 <= k < m ==> (#[trigger] units[k]).column && !units[k].dual_inlet
    &&& forall|j: int|
        0 <= j < singles.len() ==> (#[trigger] units[m + j]).nodes@ == seq![singles[j]] && !units[m + j].column
            && units[m + j].dual_inlet == spec_is_dual_inlet_combiner(g.spec_node(singles[j]).unwrap())
    &&& forall|x: LayoutNodeId| #[trigger] node_to_unit.contains_key(x) <==> g.spec_node(x) is Some
    &&& forall|x: LayoutNodeId|
        #[trigger] node_to_unit.contains_key(x) ==> node_to_unit[x] < units.len()
            && units[node_to_unit[x] as int].nodes@.contains(x)
}

/// The units partition the graph's nodes: every unit holds at least one
/// node of the graph; each node lies in exactly the unit `node_to_unit`
/// gives, so no node lies in two units; every node lies in some unit; a
/// column unit is a maximal chain of linear pass-through nodes; every other
/// unit holds one node, flagged exactly when that node is a dual-inlet
/// combiner.
pub open spec fn unit_partition(g: LayoutGraph, units: Seq<LayoutUnit>, node_to_unit: Map<LayoutNodeId, usize>) -> bool {
    &&& forall|k: int| 0 <= k < units.len() ==> (#[trigger] units[k]).nodes@.len() >= 1
    &&& forall|k: int, i: int|
        0 <= k < units.len() && 0 <= i < units[k].nodes@.len() ==> g.spec_node(#[trigger] units[k].nodes@[i]) is Some
            && node_to_unit.contains_key(units[k].nodes@[i]) && node_to_unit[units[k].nodes@[i]] == k
    &&& forall|k: int, l: int, i: int, j: int|
        0 <= k < units.len() && 0 <= l < units.len() && 0 <= i < units[k].nodes@.len() && 0 <= j
            < units[l].nodes@.len() && #[trigger] units[k].nodes@[i] == #[trigger] units[l].nodes@[j] ==> k == l
    &&& forall|x: LayoutNodeId|
        #[trigger] g.spec_node(x) is Some ==> node_to_unit.contains_key(x) && node_to_unit[x] < units.len()
            && units[node_to_unit[x] as int].nodes@.contains(x)
    &&& forall|k: int|
        0 <= k < units.len() ==> if (#[trigger] units[k]).column {
            column_ok(g, units[k].nodes@) && !units[k].dual_inlet
        } else {
            units[k].nodes@.len() == 1 && units[k].dual_inlet == spec_is_dual_inlet_combiner(
                g.spec_node(units[k].nodes@[0]).unwrap(),
            )
        }
}

proof fn lemma_non_lp_not_lp(g: LayoutGraph, ids: Seq<LayoutNodeId>, j: int)
    requires
        0 <= j < non_lp_ids(g, ids).len(),
    ensures
        !is_lp(g, non_lp_ids(g, ids)[j]),
    decreases ids.len(),
{
    let rest = non_lp_ids(g, ids.drop_last());
    if j < rest.len() {
        lemma_non_lp_not_lp(g, ids.drop_last(), j);
    }
}

proof fn lemma_non_lp_increasing(g: LayoutGraph, ids: Seq<LayoutNodeId>)
    requires
        forall|a: int, b: int| 0 <= a < b < ids.len() ==> ids[a] < ids[b],
    ensures
        forall|a: int, b: int|
            0 <= a < b < non_lp_ids(g, ids).len() ==> non_lp_ids(g, ids)[a] < non_lp_ids(g, ids)[b],
    decreases ids.len(),
{
    if ids.len() > 0 {
        let d = ids.drop_last();
        lemma_non_lp_increasing(g, d);
        let rest = non_lp_ids(g, d);
        if !is_lp(g, ids.last()) {
            assert forall|a: int| 0 <= a < rest.len() implies rest[a] < ids.last() by {
                lemma_non_lp_ids_from(g, d, a);
                let i = choose|i: int| 0 <= i < d.len() && d[i] == rest[a];
                assert(ids[i] < ids[ids.len() - 1]);
            }
        }
    }
}

/// Law: the units that [`build_unit_layout`] builds partition the graph's
/// nodes (see [`unit_partition`]).
#[verifier::spinoff_prover]
#[verifier::rlimit(80)]
pub proof fn lemma_unit_layout_partition(g: LayoutGraph, units: Seq<LayoutUnit>, node_to_unit: Map<LayoutNodeId, usize>)
    requires
        g.well_formed(),
        built_units(g, units, node_to_unit),
    ensures
        unit_partition(g, units, node_to_unit),
{
    let ids = g.spec_node_ids();
    let singles = non_lp_ids(g, ids);
    let m = units.len() - singles.len();
    let cs = unit_nodes(units).take(m);
    assert forall|a: int, b: int| 0 <= a < b < ids.len() implies ids[a] < ids[b] by {
        assert(ids[a] == g.node_seq()[a].id && ids[b] == g.node_seq()[b].id);
    }
    lemma_non_lp_increasing(g, ids);
    assert forall|k: int| 0 <= k < m implies #[trigger] cs[k] == units[k].nodes@ by {}
    assert forall|k: int| 0 <= k < units.len() implies {
        &&& (#[trigger] units[k]).nodes@.len() >= 1
        &&& if units[k].column {
            column_ok(g, units[k].nodes@) && !units[k].dual_inlet
        } else {
            units[k].nodes@.len() == 1 && units[k].dual_inlet == spec_is_dual_inlet_combiner(
                g.spec_node(units[k].nodes@[0]).unwrap(),
            )
        }
    } by {
        if k < m {
            assert(cs[k] == units[k].nodes@);
            assert(column_ok(g, cs[k]));
        } else {
            assert(units[m + (k - m)] == units[k]);
        }
    }
    // Where a node of a unit lies, and what it is.
    assert forall|k: int, i: int| 0 <= k < units.len() && 0 <= i < units[k].nodes@.len() implies {
        &&& g.spec_node(units[k].nodes@[i]) is Some
        &&& (k < m ==> is_lp(g, units[k].nodes@[i]))
        &&& (k >= m ==> i == 0 && units[k].nodes@[i] == singles[k - m] && !is_lp(g, units[k].nodes@[i]))
    } by {
        if k < m {
            assert(cs[k] == units[k].nodes@);
            assert(column_ok(g, cs[k]));
            assert(is_lp(g, cs[k][i]));
        } else {
            assert(units[m + (k - m)] == units[k]);
            lemma_non_lp_ids_are_nodes(g, ids, k - m);
            lemma_non_lp_not_lp(g, ids, k - m);
        }
    }
    assert forall|k: int, l: int, i: int, j: int|
        0 <= k < units.len() && 0 <= l < units.len() && 0 <= i < units[k].nodes@.len() && 0 <= j
            < units[l].nodes@.len() && #[trigger] units[k].nodes@[i] == #[trigger] units[l].nodes@[j] implies k
        == l by {
        if k < m && l < m {
            assert(cs[k] == units[k].nodes@ && cs[l] == units[l].nodes@);
            assert(cs[k][i] == cs[l][j]);
        } else if k >= m && l >= m {
            if k < l {
                assert(singles[k - m] < singles[l - m]);
            } else if l < k {
                assert(singles[l - m] < singles[k - m]);
            }
        }
    }
    assert forall|k: int, i: int| 0 <= k < units.len() && 0 <= i < units[k].nodes@.len() implies g.spec_node(
        #[trigger] units[k].nodes@[i],
    ) is Some && node_to_unit.contains_key(units[k].nodes@[i]) && node_to_unit[units[k].nodes@[i]] == k by {
        let x = units[k].nodes@[i];
        assert(node_to_unit.contains_key(x));
        let l = node_to_unit[x] as int;
        let j = choose|j: int| 0 <= j < units[l].nodes@.len() && units[l].nodes@[j] == x;
        assert(units[k].nodes@[i] == units[l].nodes@[j]);
    }
    assert forall|x: LayoutNodeId| #[trigger] g.spec_node(x) is Some implies node_to_unit.contains_key(x)
        && node_to_unit[x] < units.len() && units[node_to_unit[x] as int].nodes@.contains(x) by {
        assert(node_to_unit.contains_key(x));
    }
}

/// Splits the graph into layout units: first one column unit per maximal
/// pass-through chain (ordered by head id), then one unit for every other node
/// in id order, flagged when the node is a dual-inlet combiner; records each
/// node's unit and the combiner fan-in pairs.
#[verifier::spinoff_prover]
#[verifier::rlimit(80)]
pub fn build_unit_layout(g: &LayoutGraph) -> (r: UnitLayout)
    requires
        lp_acyclic(*g),
        combiner_feeders_known(*g),
    ensures
        built_units(*g, r.units@, r.node_to_unit@),
        r.fanin_pairs@ == spec_fanin_pairs(r.units@, r.node_to_unit@, g.edge_seq()),
{
    proof {
        use_type_invariant(g);
    }
    let cols = find_vertical_columns(g);
    let ghost cs = cols_view(cols@);
    let (mut units, mut map) = column_units(&cols);
    let m = units.len();
    proof {
        assert(unit_nodes(units@) =~= cs);
        assert forall|x: LayoutNodeId| #[trigger] map@.contains_key(x) <==> is_lp(*g, x) by {
            if map@.contains_key(x) {
                let (kk, ii) = choose|kk: int, ii: int|
                    0 <= kk < cs.len() && 0 <= ii < cs[kk].len() && #[trigger] cs[kk][ii] == x;
                assert(column_ok(*g, cs[kk]));
            }
            if is_lp(*g, x) {
                let (kk, ii) = choose|kk: int, ii: int|
                    0 <= kk < cs.len() && 0 <= ii < cs[kk].len() && #[trigger] cs[kk][ii] == x;
                assert(in_some_column(cs, x));
            }
        }
    }
    let ids = g.sorted_node_ids();
    let mut i: usize = 0;
    while i < ids.len()
        invariant
            0 <= i <= ids@.len(),
            ids@ == g.spec_node_ids(),
            g.well_formed(),
            forall|a: int, b: int| 0 <= a < b < ids@.len() ==> ids@[a] < ids@[b],
            m == cs.len(),
            units@.len() == m + non_lp_ids(*g, ids@.take(i as int)).len(),
            unit_nodes(units@).take(m as int) == cs,
            forall|k: int| 0 <= k < m ==> (#[trigger] units@[k]).column && !units@[k].dual_inlet,
            forall|j: int|
                0 <= j < non_lp_ids(*g, ids@.take(i as int)).len() ==> (#[trigger] units@[m + j]).nodes@
                    == seq![non_lp_ids(*g, ids@.take(i as int))[j]] && !units@[m + j].column
                    && units@[m + j].dual_inlet == spec_is_dual_inlet_combiner(
                    g.spec_node(non_lp_ids(*g, ids@.take(i as int))[j]).unwrap(),
                ),
            forall|x: LayoutNodeId|
                #[trigger] map@.contains_key(x) <==> (is_lp(*g, x) || ids@.take(i as int).contains(x)),
            forall|x: LayoutNodeId|
                #[trigger] map@.contains_key(x) ==> map@[x] < units@.len()
                    && units@[map@[x] as int].nodes@.contains(x),
        decreases ids.len() - i,
    {
        let id = ids[i];
        let ghost before = units@;
        let ghost singles = non_lp_ids(*g, ids@.take(i as int));
        assert(ids@.take(i + 1).drop_last() =~= ids@.take(i as int));
        assert(ids@.take(i + 1).last() == id);
        if !map.contains_key(&id) {
            proof {
                assert(!ids@.take(i as int).contains(id));
                assert(!is_lp(*g, id));
                assert(ids@.contains(id));
            }
            let node = g.node(id);
            proof {
                let j = choose|j: int| 0 <= j < ids@.len() && ids@[j] == id;
                assert(g.spec_node_ids()[j] == id);
                assert(g.node_seq()[j].id == id);
                crate::layout_graph::lemma_lookup_found(g.node_seq(), j);
            }
            let dual = is_dual_inlet_combiner(node.unwrap());
            map.insert(id, units.len());
            units.push(LayoutUnit::singleton(id, dual));
            proof {
                let ns = non_lp_ids(*g, ids@.take(i + 1));
                assert(ns == singles.push(id));
                assert(unit_nodes(units@).take(m as int) =~= unit_nodes(before).take(m as int));
                assert forall|j: int| 0 <= j < ns.len() implies (#[trigger] units@[m + j]).nodes@
                    == seq![ns[j]] && !units@[m + j].column && units@[m + j].dual_inlet
                    == spec_is_dual_inlet_combiner(g.spec_node(ns[j]).unwrap()) by {
                    if j < singles.len() {
                        assert(units@[m + j] == before[m + j]);
                    }
                }
                assert forall|k: int| 0 <= k < m implies (#[trigger] units@[k]).column
                    && !units@[k].dual_inlet by {
                    assert(units@[k] == before[k]);
                }
                let t1 = ids@.take(i + 1);
                let t0 = ids@.take(i as int);
                assert forall|x: LayoutNodeId| #[trigger] map@.contains_key(x) <==> (is_lp(*g, x)
                    || t1.contains(x)) by {
                    if t1.contains(x) && x != id {
                        let j = choose|j: int| 0 <= j < t1.len() && t1[j] == x;
                        assert(t0[j] == x);
                    }
                    if t0.contains(x) {
                        let j = choose|j: int| 0 <= j < t0.len() && t0[j] == x;
                        assert(t1[j] == x);
                    }
                    if x == id {
                        assert(t1[i as int] == x);
                    }
                }
                assert forall|x: LayoutNodeId| #[trigger] map@.contains_key(x) implies map@[x]
                    < units@.len() && units@[map@[x] as int].nodes@.contains(x) by {
                    if x == id {
                        assert(units@[map@[x] as int].nodes@[0] == x);
                    } else {
                        assert(units@[map@[x] as int] == before[map@[x] as int]);
                    }
                }
            }
        } else {
            proof {
                if !is_lp(*g, id) {
                    assert(ids@.take(i as int).contains(id));
                    let t0 = ids@.take(i as int);
                    let j = choose|j: int| 0 <= j < t0.len() && t0[j] == id;
                    assert(ids@[j] < ids@[i as int]);
                }
                assert(non_lp_ids(*g, ids@.take(i + 1)) == singles);
                let t1 = ids@.take(i + 1);
                let t0 = ids@.take(i as int);
                assert forall|x: LayoutNodeId| #[trigger] map@.contains_key(x) <==> (is_lp(*g, x)
                    || t1.contains(x)) by {
                    if t1.contains(x) && x != id {
                        let j = choose|j: int| 0 <= j < t1.len() && t1[j] == x;
                        assert(t0[j] == x);
                    }
                    if t0.contains(x) {
                        let j = choose|j: int| 0 <= j < t0.len() && t0[j] == x;
                        assert(t1[j] == x);
                    }
                    if x == id {
                        assert(t1[i as int] == x);
                    }
                }
            }
        }
        i = i + 1;
    }
    proof {
        assert(ids@.take(i as int) =~= ids@);
        assert forall|x: LayoutNodeId| #[trigger] map@.contains_key(x) <==> g.spec_node(x) is Some by {
            if g.spec_node(x) is Some {
                lemma_node_in_ids(*g, x);
            }
            if ids@.contains(x) {
                let j = choose|j: int| 0 <= j < ids@.len() && ids@[j] == x;
                assert(g.spec_node_ids()[j] == x);
                assert(g.node_seq()[j].id == x);
                crate::layout_graph::lemma_lookup_found(g.node_seq(), j);
            }
        }
    }
    let tmp = UnitLayout { units, node_to_unit: map, fanin_pairs: Vec::new() };
    proof {
        assert forall|k: int|
            0 <= k < tmp.units@.len() && (#[trigger] tmp.units@[k]).dual_inlet
                implies tmp.units@[k].nodes@.len() >= 1 by {
            if k >= m {
                assert(tmp.units@[m + (k - m)] == tmp.units@[k]);
            }
        }
        assert forall|k: int, j: int|
            0 <= k < tmp.units@.len() && (#[trigger] tmp.units@[k]).dual_inlet && 0 <= j
                < incoming_edges(g.edge_seq(), tmp.units@[k].nodes@[0]).len()
                && incoming_edges(g.edge_seq(), tmp.units@[k].nodes@[0]).len() >= 2
                implies tmp.node_to_unit@.contains_key(
                #[trigger] incoming_edges(g.edge_seq(), tmp.units@[k].nodes@[0])[j].from,
            ) by {
            if k >= m {
                let singles = non_lp_ids(*g, ids@);
                assert(tmp.units@[m + (k - m)] == tmp.units@[k]);
                let c = singles[k - m];
                assert(tmp.units@[k].nodes@[0] == c);
                lemma_non_lp_ids_are_nodes(*g, ids@, k - m);
            }
        }
    }
    let pairs = find_combine_fanin_pairs(&tmp, g);
    UnitLayout { units: tmp.units, node_to_unit: tmp.node_to_unit, fanin_pairs: pairs }
}

proof fn lemma_non_lp_ids_are_nodes(g: LayoutGraph, ids: Seq<LayoutNodeId>, j: int)
    requires
        g.well_formed(),
        ids == g.spec_node_ids(),
        0 <= j < non_lp_ids(g, ids).len(),
    ensures
        g.spec_node(non_lp_ids(g, ids)[j]) is Some,
{
    lemma_non_lp_ids_from(g, ids, j);
    let i = choose|i: int| 0 <= i < ids.len() && ids[i] == non_lp_ids(g, ids)[j];
    assert(g.node_seq()[i].id == ids[i]);
    crate::layout_graph::lemma_lookup_found(g.node_seq(), i);
}

proof fn lemma_non_lp_ids_from(g: LayoutGraph, ids: Seq<LayoutNodeId>, j: int)
    requires
        0 <= j < non_lp_ids(g, ids).len(),
    ensures
        ids.contains(non_lp_ids(g, ids)[j]),
    decreases ids.len(),
{
    let rest = non_lp_ids(g, ids.drop_last());
    if j < rest.len() {
        lemma_non_lp_ids_from(g, ids.drop_last(), j);
        let i = choose|i: int| 0 <= i < ids.drop_last().len() && ids.drop_last()[i] == rest[j];
        assert(ids[i] == rest[j]);
        if !is_lp(g, ids.last()) {
            assert(non_lp_ids(g, ids)[j] == rest[j]);
        }
    } else {
        assert(ids[ids.len() - 1] == ids.last());
    }
}

} // verus!
