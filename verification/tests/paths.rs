use pd_patch::paths::{find_cycle_nodes, find_path_nodes};

fn adj() -> Vec<Vec<usize>> {
    // 0 -> 1 -> 2 -> 3, 0 -> 2, 4 isolated
    vec![vec![1, 2], vec![2], vec![3], vec![], vec![]]
}

#[test]
fn path_follows_edges() {
    let a = adj();
    assert_eq!(find_path_nodes(&a, 0, 3), Some(vec![0, 2, 3]));
    assert_eq!(find_path_nodes(&a, 1, 3), Some(vec![1, 2, 3]));
    assert_eq!(find_path_nodes(&a, 2, 2), Some(vec![2]));
}

#[test]
fn no_path_against_edges() {
    let a = adj();
    assert_eq!(find_path_nodes(&a, 3, 0), None);
    assert_eq!(find_path_nodes(&a, 0, 4), None);
}

#[test]
fn cycle_nodes_for_new_cable() {
    let a = adj();
    // A cable 3 -> 0 would close the cycle 0 -> 2 -> 3 -> 0.
    assert_eq!(find_cycle_nodes(&a, 3, 0), vec![0, 2, 3]);
    // A cable 0 -> 4 closes nothing.
    assert_eq!(find_cycle_nodes(&a, 0, 4), vec![0, 4]);
}

#[test]
fn search_returns_a_shortest_path() {
    // 0 -> 1 -> 2 -> 3 -> 5 and 0 -> 4 -> 5: the second route is shorter.
    let a = vec![vec![1, 4], vec![2], vec![3], vec![5], vec![5], vec![]];
    assert_eq!(find_path_nodes(&a, 0, 5), Some(vec![0, 4, 5]));
    // Listed first, the long route is still not taken.
    let b = vec![vec![1, 4], vec![2], vec![5], vec![], vec![5], vec![]];
    assert_eq!(find_path_nodes(&b, 0, 5).map(|p| p.len()), Some(3));
}

#[test]
fn equal_paths_follow_the_first_discovery() {
    // Two shortest paths 0 -> 2 -> 3 and 0 -> 1 -> 3; node 2 is listed first.
    let a = vec![vec![2, 1], vec![3], vec![3], vec![]];
    assert_eq!(find_path_nodes(&a, 0, 3), Some(vec![0, 2, 3]));
    let b = vec![vec![1, 2], vec![3], vec![3], vec![]];
    assert_eq!(find_path_nodes(&b, 0, 3), Some(vec![0, 1, 3]));
    assert_eq!(find_cycle_nodes(&b, 3, 0), vec![0, 1, 3]);
}
