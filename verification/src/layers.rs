//! Units grouped by rank: a stable order within each layer by head node id.

use std::collections::HashMap;

use vstd::prelude::*;

use crate::layout_graph::LayoutNodeId;
use crate::units::{LayoutUnit, UnitLayout};

verus! {

broadcast use vstd::std_specs::hash::group_hash_axioms;

/// Head node of unit `ix`.
pub open spec fn head_of(units: Seq<LayoutUnit>, ix: usize) -> LayoutNodeId {
    units[ix as int].nodes@[0]
}

/// The units of `layer` with head `h`.
pub open spec fn with_head(units: Seq<LayoutUnit>, h: LayoutNodeId) -> spec_fn(usize) -> bool {
    |ix: usize| head_of(units, ix) == h
}

/// `r` is `v` in a stable order by head id: sorted by head, and units with
/// the same head keep their relative order (the only such order).
pub open spec fn stably_sorted_by_head(v: Seq<usize>, r: Seq<usize>, units: Seq<LayoutUnit>) -> bool {
    &&& forall|i: int, j: int| 0 <= i < j < r.len() ==> head_of(units, #[trigger] r[i]) <= head_of(units, #[trigger] r[j])
    &&& forall|h: LayoutNodeId| #[trigger] r.filter(with_head(units, h)) == v.filter(with_head(units, h))
}

/// Every unit index in `v` names a unit with a head node.
pub open spec fn layer_ok(v: Seq<usize>, units: Seq<LayoutUnit>) -> bool {
    forall|i: int| 0 <= i < v.len() ==> #[trigger] v[i] < units.len() && units[v[i] as int].nodes@.len() >= 1
}

/// Keeping only head `h` after inserting `x` at `p`, where every unit before
/// `p` has a head no larger than `x`'s and every unit from `p` on a larger one.
proof fn lemma_filter_insert(r: Seq<usize>, p: int, x: usize, units: Seq<LayoutUnit>, h: LayoutNodeId)
    requires
        0 <= p <= r.len(),
        forall|q: int| p <= q < r.len() ==> head_of(units, #[trigger] r[q]) > head_of(units, x),
    ensures
        r.insert(p, x).filter(with_head(units, h)) == if head_of(units, x) == h {
            r.filter(with_head(units, h)).push(x)
        } else {
            r.filter(with_head(units, h))
        },
{
    let f = with_head(units, h);
    let a = r.take(p);
    let b = r.skip(p);
    assert(r =~= a + b);
    assert(r.insert(p, x) =~= a + seq![x] + b);
    Seq::filter_distributes_over_add(a, b, f);
    Seq::filter_distributes_over_add(a + seq![x], b, f);
    Seq::filter_distributes_over_add(a, seq![x], f);
    reveal_with_fuel(Seq::filter, 2);
    assert(seq![x].drop_last() =~= Seq::<usize>::empty());
    if head_of(units, x) == h {
        assert forall|q: int| 0 <= q < b.len() implies !f(#[trigger] b[q]) by {
            assert(b[q] == r[p + q]);
        }
        b.lemma_all_neg_filter_empty(f);
        assert(b.filter(f) =~= Seq::<usize>::empty());
        assert(a.filter(f).push(x) =~= a.filter(f) + seq![x]);
    } else {
        assert(seq![x].filter(f) =~= Seq::<usize>::empty());
    }
}

/// The units of `v` in a stable order by head node id.
pub fn sort_by_head(v: &Vec<usize>, units: &UnitLayout) -> (r: Vec<usize>)
    requires
        layer_ok(v@, units.units@),
    ensures
        stably_sorted_by_head(v@, r@, units.units@),
        layer_ok(r@, units.units@),
{
    let ghost us = units.units@;
    let mut r: Vec<usize> = Vec::new();
    let mut i: usize = 0;
    assert(v@.take(0) =~= Seq::<usize>::empty());
    assert forall|h: LayoutNodeId| #[trigger] r@.filter(with_head(us, h)) == v@.take(0).filter(with_head(us, h)) by {
        reveal_with_fuel(Seq::filter, 1);
    }
    while i < v.len()
        invariant
            0 <= i <= v@.len(),
            us == units.units@,
            layer_ok(v@, us),
            layer_ok(r@, us),
            forall|a: int, b: int| 0 <= a < b < r@.len() ==> head_of(us, #[trigger] r@[a]) <= head_of(us, #[trigger] r@[b]),
            forall|h: LayoutNodeId| #[trigger] r@.filter(with_head(us, h)) == v@.take(i as int).filter(with_head(us, h)),
        decreases v.len() - i,
    {
        let x = v[i];
        let hx = units.units[x].head();
        let mut p: usize = 0;
        while p < r.len() && units.units[r[p]].head() <= hx
            invariant
                0 <= p <= r@.len(),
                us == units.units@,
                layer_ok(r@, us),
                hx == head_of(us, x),
                forall|q: int| 0 <= q < p ==> head_of(us, #[trigger] r@[q]) <= hx,
            decreases r.len() - p,
        {
            p = p + 1;
        }
        let ghost before = r@;
        proof {
            assert forall|q: int| p <= q < before.len() implies head_of(us, #[trigger] before[q]) > hx by {
                if p < before.len() {
                    assert(head_of(us, before[p as int]) > hx);
                    if q > p {
                        assert(head_of(us, before[p as int]) <= head_of(us, before[q]));
                    }
                }
            }
        }
        r.insert(p, x);
        proof {
            assert(v@.take(i + 1) =~= v@.take(i as int).push(x));
            assert forall|h: LayoutNodeId| #[trigger] r@.filter(with_head(us, h)) == v@.take(i + 1).filter(
                with_head(us, h),
            ) by {
                lemma_filter_insert(before, p as int, x, us, h);
                v@.take(i as int).lemma_filter_push(x, with_head(us, h));
            }
            assert forall|a: int, b: int| 0 <= a < b < r@.len() implies head_of(us, #[trigger] r@[a]) <= head_of(
                us,
                #[trigger] r@[b],
            ) by {
                if b < p {
                } else if b == p {
                    assert(r@[b] == x);
                } else if a < p {
                    assert(r@[b] == before[b - 1]);
                } else if a == p {
                    assert(r@[b] == before[b - 1]);
                } else {
                    assert(r@[a] == before[a - 1] && r@[b] == before[b - 1]);
                }
            }
            assert forall|q: int| 0 <= q < r@.len() implies #[trigger] r@[q] < us.len() && us[r@[q] as int].nodes@.len()
                >= 1 by {
                if q < p {
                } else if q > p {
                    assert(r@[q] == before[q - 1]);
                }
            }
        }
        i = i + 1;
    }
    assert(v@.take(i as int) =~= v@);
    r
}

/// Sorts every layer of rank at most `max_rank` stably by head node id;
/// other layers are left as they are.
pub fn stable_sort_layers(layers: &mut HashMap<u32, Vec<usize>>, max_rank: u32, units: &UnitLayout)
    requires
        forall|k: u32| #[trigger] old(layers)@.contains_key(k) && k <= max_rank ==> layer_ok(old(layers)@[k]@, units.units@),
    ensures
        forall|k: u32| #[trigger] final(layers)@.contains_key(k) <==> old(layers)@.contains_key(k),
        forall|k: u32|
            #[trigger] old(layers)@.contains_key(k) && k <= max_rank ==> stably_sorted_by_head(
                old(layers)@[k]@,
                final(layers)@[k]@,
                units.units@,
            ),
        forall|k: u32| #[trigger] old(layers)@.contains_key(k) && k > max_rank ==> final(layers)@[k] == old(layers)@[k],
{
    let ghost orig = layers@;
    let mut rank: u64 = 0;
    while rank <= max_rank as u64
        invariant
            rank <= max_rank as u64 + 1,
            forall|k: u32| #[trigger] orig.contains_key(k) && k <= max_rank ==> layer_ok(orig[k]@, units.units@),
            forall|k: u32| #[trigger] layers@.contains_key(k) <==> orig.contains_key(k),
            forall|k: u32|
                #[trigger] orig.contains_key(k) && (k as u64) < rank ==> stably_sorted_by_head(
                    orig[k]@,
                    layers@[k]@,
                    units.units@,
                ),
            forall|k: u32| #[trigger] orig.contains_key(k) && (k as u64) >= rank ==> layers@[k] == orig[k],
        decreases max_rank as u64 + 1 - rank,
    {
        let key = rank as u32;
        let sorted = match layers.get(&key) {
            Some(layer) => Some(sort_by_head(layer, units)),
            None => None,
        };
        if let Some(s) = sorted {
            layers.insert(key, s);
        }
        rank = rank + 1;
    }
}

} // verus!
