use pd_patch::layers::{sort_by_head, stable_sort_layers};
use pd_patch::units::{LayoutUnit, UnitLayout};
use std::collections::HashMap;

fn units() -> UnitLayout {
    let units = vec![
        LayoutUnit::singleton(30, false),
        LayoutUnit::column(vec![10, 11]),
        LayoutUnit::singleton(20, false),
        LayoutUnit::column(vec![10, 12]),
    ];
    UnitLayout { units, node_to_unit: HashMap::new(), fanin_pairs: Vec::new() }
}

#[test]
fn layer_sorted_by_head_keeping_ties_in_order() {
    let u = units();
    assert_eq!(sort_by_head(&vec![0, 3, 2, 1], &u), vec![3, 1, 2, 0]);
    assert_eq!(sort_by_head(&vec![1, 3], &u), vec![1, 3]);
    assert_eq!(sort_by_head(&vec![], &u), Vec::<usize>::new());
}

#[test]
fn only_layers_up_to_max_rank_are_sorted() {
    let u = units();
    let mut layers: HashMap<u32, Vec<usize>> = HashMap::new();
    layers.insert(0, vec![0, 2]);
    layers.insert(1, vec![2, 1]);
    layers.insert(5, vec![0, 1]);
    stable_sort_layers(&mut layers, 1, &u);
    assert_eq!(layers[&0], vec![2, 0]);
    assert_eq!(layers[&1], vec![1, 2]);
    assert_eq!(layers[&5], vec![0, 1]);
    assert_eq!(layers.len(), 3);
}
