use rustree::app_state::AppState;
use rustree::tree::listing::{SortColumn, SortOrder};
use rustree::tree::TreeNode;

fn file(id: u64, name: &str, size: u64) -> TreeNode {
    let mut n = TreeNode::new_file(name.to_string(), size);
    n.id = id;
    n
}

fn dir(id: u64, name: &str, children: Vec<TreeNode>) -> TreeNode {
    let mut d = TreeNode::new_directory(name.to_string());
    d.id = id;
    for c in children {
        d.add_child(c);
    }
    d
}

/// C: > {Users(2) > {kevin(3) > {big.iso(5)}, notes.txt(6)}, pagefile.sys(4)}
fn sample() -> TreeNode {
    let kevin = dir(3, "kevin", vec![file(5, "big.iso", 900)]);
    let users = dir(2, "Users", vec![kevin, file(6, "notes.txt", 10)]);
    let mut root = dir(1, "C:", vec![users, file(4, "pagefile.sys", 500)]);
    root.sort_by_size();
    root
}

#[test]
fn new_state_sorts_by_size() {
    let state = AppState::new();
    assert!(state.tree.is_none());
    assert!(state.expanded.is_empty());
    assert_eq!(state.sort, SortOrder { column: SortColumn::Size, descending: true });
    assert_eq!(state.selected, None);
    assert!(state.treemap_root.is_empty());
    assert!(state.treemap_root_node().is_none());
}

#[test]
fn a_new_tree_keeps_only_the_sort() {
    let mut state = AppState::new();
    state.sort_by(SortColumn::Name);
    state.expanded.insert(7);
    state.selected = Some(7);
    state.treemap_root.push(7);
    state.set_tree(sample());
    assert_eq!(state.sort, SortOrder { column: SortColumn::Name, descending: false });
    assert!(state.expanded.is_empty());
    assert_eq!(state.selected, None);
    assert!(state.treemap_root.is_empty());
    assert_eq!(state.treemap_root_node().unwrap().name, "C:");
}

#[test]
fn clicking_a_column_head_switches_or_turns_round() {
    let mut state = AppState::new();
    state.sort_by(SortColumn::Size);
    assert_eq!(state.sort, SortOrder { column: SortColumn::Size, descending: false });
    state.sort_by(SortColumn::Name);
    assert_eq!(state.sort, SortOrder { column: SortColumn::Name, descending: false });
    state.sort_by(SortColumn::Name);
    assert_eq!(state.sort, SortOrder { column: SortColumn::Name, descending: true });
}

#[test]
fn clicking_a_row_opens_and_closes() {
    let mut state = AppState::new();
    assert!(!state.toggle_entry(0));
    state.set_tree(sample());
    assert!(state.toggle_entry(0));
    assert!(state.expanded.contains(&2));
    assert_eq!(state.selected, Some(2));
    assert_eq!(state.selected_index(), Some(0));
    // Rows now: Users, kevin, notes.txt, pagefile.sys
    assert!(state.toggle_entry(3));
    assert_eq!(state.selected, Some(4));
    assert_eq!(state.selected_index(), Some(3));
    assert!(state.toggle_entry(0));
    assert!(!state.expanded.contains(&2));
    assert!(!state.toggle_entry(5));
    assert_eq!(state.selected, Some(2));
}

#[test]
fn a_click_in_the_treemap_opens_the_way() {
    let mut state = AppState::new();
    state.set_tree(sample());
    assert!(!state.show_in_list(&[]));
    assert!(state.show_in_list(&[2, 3, 5]));
    assert!(state.expanded.contains(&2));
    assert!(state.expanded.contains(&3));
    assert!(!state.expanded.contains(&5));
    assert_eq!(state.selected, Some(5));
    assert_eq!(state.selected_index(), Some(2));
}

#[test]
fn the_treemap_moves_down_into_directories_and_up_again() {
    let mut state = AppState::new();
    state.set_tree(sample());
    assert!(!state.descend(&[4]));
    assert!(state.descend(&[2, 3, 5]));
    assert_eq!(state.treemap_root, vec![2]);
    assert_eq!(state.treemap_root_text(), "C:\\Users");
    assert!(state.descend(&[2, 3, 5]));
    assert_eq!(state.treemap_root, vec![2, 3]);
    assert!(!state.descend(&[2, 3, 5]));
    assert_eq!(state.hit_chain(&[5]), vec![2, 3, 5]);
    assert_eq!(state.hover_text(&[2, 3, 5]).unwrap(), "C:\\Users\\kevin\\big.iso - 900 B");
    assert!(state.ascend());
    assert!(state.ascend());
    assert!(!state.ascend());
    assert_eq!(state.treemap_root_text(), "");
}
