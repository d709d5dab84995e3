use rustree::tree::listing::{collect_visible_ids, describe, ordered_children, visible_rows, SortColumn, SortOrder};
use rustree::tree::TreeNode;
use std::collections::HashSet;

fn node(id: u64, name: &str, size: u64) -> TreeNode {
    let mut n = TreeNode::new_file(name.to_string(), size);
    n.id = id;
    n
}

fn dir(id: u64, name: &str, children: Vec<TreeNode>) -> TreeNode {
    let mut d = TreeNode::new_directory(name.to_string());
    d.id = id;
    for c in children {
        d.add_child(c);
    }
    d
}

/// Root with children sorted by size: beta (dir, 300), Alpha.txt (200), gamma (100).
fn sample() -> TreeNode {
    let beta = dir(2, "beta", vec![node(5, "x.bin", 250), node(6, "y.bin", 50)]);
    let mut root = dir(1, "R:", vec![beta, node(3, "Alpha.txt", 200), node(4, "gamma", 100)]);
    root.sort_by_size();
    root
}

fn names(nodes: &[&TreeNode]) -> Vec<String> {
    nodes.iter().map(|n| n.name.clone()).collect()
}

#[test]
fn default_sort_orders() {
    assert_eq!(SortOrder::default_for(SortColumn::Size), SortOrder { column: SortColumn::Size, descending: true });
    assert_eq!(SortOrder::default_for(SortColumn::Name), SortOrder { column: SortColumn::Name, descending: false });
}

#[test]
fn children_by_size_and_by_name() {
    let root = sample();
    let by_size = ordered_children(&root, SortOrder::default_for(SortColumn::Size));
    assert_eq!(names(&by_size), vec!["beta", "Alpha.txt", "gamma"]);
    let by_size_up = ordered_children(&root, SortOrder { column: SortColumn::Size, descending: false });
    assert_eq!(names(&by_size_up), vec!["gamma", "Alpha.txt", "beta"]);
    let by_name = ordered_children(&root, SortOrder::default_for(SortColumn::Name));
    assert_eq!(names(&by_name), vec!["Alpha.txt", "beta", "gamma"]);
    let by_name_down = ordered_children(&root, SortOrder { column: SortColumn::Name, descending: true });
    assert_eq!(names(&by_name_down), vec!["gamma", "beta", "Alpha.txt"]);
}

#[test]
fn equal_names_keep_their_order() {
    let root = dir(1, "R:", vec![node(2, "Same", 1), node(3, "same", 2), node(4, "a", 3)]);
    let by_name = ordered_children(&root, SortOrder::default_for(SortColumn::Name));
    let ids: Vec<u64> = by_name.iter().map(|n| n.id).collect();
    assert_eq!(ids, vec![4, 2, 3]);
    let down = ordered_children(&root, SortOrder { column: SortColumn::Name, descending: true });
    let ids: Vec<u64> = down.iter().map(|n| n.id).collect();
    assert_eq!(ids, vec![3, 2, 4]);
}

#[test]
fn visible_rows_follow_expanded_directories() {
    let root = sample();
    let mut expanded = HashSet::new();
    let sort = SortOrder::default_for(SortColumn::Size);
    assert_eq!(collect_visible_ids(&root, &expanded, sort), vec![2, 3, 4]);

    expanded.insert(2);
    expanded.insert(3);
    let rows = visible_rows(&root, &expanded, sort);
    let shown: Vec<(u64, i32, bool)> = rows.iter().map(|r| (r.node.id, r.depth, r.expanded)).collect();
    assert_eq!(shown, vec![(2, 0, true), (5, 1, false), (6, 1, false), (3, 0, false), (4, 0, false)]);
    assert_eq!(collect_visible_ids(&root, &expanded, sort), vec![2, 5, 6, 3, 4]);

    let by_name = SortOrder::default_for(SortColumn::Name);
    assert_eq!(collect_visible_ids(&root, &expanded, by_name), vec![3, 2, 5, 6, 4]);
}

#[test]
fn describe_gives_path_and_size() {
    let root = sample();
    assert_eq!(describe(&root, &[2]).unwrap(), "R:\\beta - 300 B (2 Dateien)");
    assert_eq!(describe(&root, &[2, 5]).unwrap(), "R:\\beta\\x.bin - 250 B");
    assert_eq!(describe(&root, &[]).unwrap(), "R: - 600 B (4 Dateien)");
    assert!(describe(&root, &[9]).is_none());
}

#[test]
fn traverse_visits_in_preorder_with_depths() {
    let root = sample();
    let mut seen: Vec<(String, usize)> = Vec::new();
    root.traverse(0, &mut |n: &TreeNode, depth: usize| seen.push((n.name.clone(), depth)));
    let expected: Vec<(String, usize)> = vec![
        ("R:".to_string(), 0),
        ("beta".to_string(), 1),
        ("x.bin".to_string(), 2),
        ("y.bin".to_string(), 2),
        ("Alpha.txt".to_string(), 1),
        ("gamma".to_string(), 1),
    ];
    assert_eq!(seen, expected);
}

#[test]
fn nodes_compare_by_size_larger_first() {
    let a = node(1, "a", 10);
    let b = node(2, "b", 20);
    let a_again = node(3, "a", 10);
    assert!(b < a);
    assert!(a > b);
    assert_eq!(a, a_again);
    assert_ne!(a, node(4, "c", 10));
    assert_eq!(a.partial_cmp(&node(5, "z", 10)), Some(std::cmp::Ordering::Equal));
}
