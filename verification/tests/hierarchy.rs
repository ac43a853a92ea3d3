use auto_instance::{all_children, apply_auto_instance_recursive, Hierarchy};

/// Root 0 with a subtree of depth three: 0 -> {1, 2}, 1 -> {3, 4}, 3 -> {5}.
/// Node 6 stands apart with its own child 7.
fn sample() -> Hierarchy {
    Hierarchy::new(vec![
        vec![1, 2],
        vec![3, 4],
        vec![],
        vec![5],
        vec![],
        vec![],
        vec![7],
        vec![],
    ])
    .unwrap()
}

#[test]
fn new_accepts_closed_children_lists() {
    let g = sample();
    assert_eq!(g.len(), 8);
    assert_eq!(Hierarchy::new(vec![]).unwrap().len(), 0);
}

#[test]
fn new_rejects_child_outside_graph() {
    assert!(Hierarchy::new(vec![vec![1], vec![2]]).is_none());
    assert!(Hierarchy::new(vec![vec![0], vec![1]]).is_some());
}

#[test]
fn all_children_lists_whole_subtree() {
    let g = sample();
    assert_eq!(all_children(&g, 0), vec![5, 3, 4, 1, 2]);
    assert_eq!(all_children(&g, 1), vec![5, 3, 4]);
    assert_eq!(all_children(&g, 3), vec![5]);
    assert_eq!(all_children(&g, 6), vec![7]);
}

#[test]
fn all_children_of_leaf_is_empty() {
    let g = sample();
    assert!(all_children(&g, 2).is_empty());
    assert!(all_children(&g, 5).is_empty());
}

#[test]
fn all_children_of_absent_node_is_empty() {
    let g = sample();
    assert!(all_children(&g, 8).is_empty());
    assert!(all_children(&g, usize::MAX).is_empty());
}

#[test]
fn all_children_lists_shared_child_once() {
    let g = Hierarchy::new(vec![vec![1, 2], vec![3], vec![3], vec![]]).unwrap();
    assert_eq!(all_children(&g, 0), vec![3, 1, 2]);
}

#[test]
fn all_children_ends_on_a_cycle() {
    let g = Hierarchy::new(vec![vec![1], vec![2], vec![0]]).unwrap();
    assert_eq!(all_children(&g, 0), vec![0, 2, 1]);
    let own = Hierarchy::new(vec![vec![0, 0]]).unwrap();
    assert_eq!(all_children(&own, 0), vec![0]);
}

#[test]
fn all_children_handles_a_deep_chain() {
    let n: usize = 50_000;
    let mut rows: Vec<Vec<usize>> = Vec::new();
    for i in 0..n {
        rows.push(if i + 1 < n { vec![i + 1] } else { vec![] });
    }
    let g = Hierarchy::new(rows).unwrap();
    let expected: Vec<usize> = (1..n).rev().collect();
    assert_eq!(all_children(&g, 0), expected);
}

#[test]
fn recursive_marker_reaches_every_descendant() {
    let g = sample();
    let out = apply_auto_instance_recursive(&g, &vec![], &vec![0]);
    assert!(out.material.is_empty());
    assert_eq!(out.mesh.len(), 1);
    assert_eq!(out.mesh[0].root, 0);
    assert_eq!(out.mesh[0].descendants, vec![5, 3, 4, 1, 2]);
    assert!(!out.mesh[0].descendants.contains(&0));
}

#[test]
fn recursive_marker_on_leaf_is_spent_without_marking() {
    let g = sample();
    let out = apply_auto_instance_recursive(&g, &vec![2, 8], &vec![]);
    assert_eq!(out.material.len(), 2);
    assert_eq!(out.material[0].root, 2);
    assert!(out.material[0].descendants.is_empty());
    assert_eq!(out.material[1].root, 8);
    assert!(out.material[1].descendants.is_empty());
    assert!(out.mesh.is_empty());
}

#[test]
fn both_kinds_are_expanded_in_one_pass() {
    let g = sample();
    let out = apply_auto_instance_recursive(&g, &vec![1, 6], &vec![6, 0]);
    assert_eq!(out.material.len(), 2);
    assert_eq!(out.material[0].root, 1);
    assert_eq!(out.material[0].descendants, vec![5, 3, 4]);
    assert_eq!(out.material[1].root, 6);
    assert_eq!(out.material[1].descendants, vec![7]);
    assert_eq!(out.mesh[0].root, 6);
    assert_eq!(out.mesh[0].descendants, vec![7]);
    assert_eq!(out.mesh[1].root, 0);
    assert_eq!(out.mesh[1].descendants, vec![5, 3, 4, 1, 2]);
}

#[test]
fn children_that_are_leaves_come_in_list_order() {
    let g = Hierarchy::new(vec![vec![3, 1, 4, 2], vec![], vec![], vec![], vec![]]).unwrap();
    assert_eq!(all_children(&g, 0), vec![3, 1, 4, 2]);
    let none = Hierarchy::new(vec![vec![]]).unwrap();
    assert!(all_children(&none, 0).is_empty());
}

#[test]
fn every_node_comes_after_the_nodes_below_it() {
    // 0 -> {4, 1}, 4 -> {2, 6}, 1 -> {5}, 2 -> {3}, 5 -> {}, 6 -> {}, 3 -> {}
    let rows = vec![vec![4, 1], vec![5], vec![3], vec![], vec![2, 6], vec![], vec![]];
    let g = Hierarchy::new(rows.clone()).unwrap();
    let list = all_children(&g, 0);
    assert_eq!(list, vec![3, 2, 6, 4, 5, 1]);
    for (at, node) in list.iter().enumerate() {
        for below in all_children(&g, *node) {
            let seen = list.iter().position(|n| *n == below).unwrap();
            assert!(seen < at);
        }
    }
}
