use rustree::mft::FileEntry;
use rustree::tree::{format_size, TreeBuilder, TreeNode};
use std::collections::HashMap;

/// C: > Users > kevin > {photo.jpg, docs > notes.txt} and C: > pagefile.sys,
/// with ids so that remove_descendant can follow a chain.
fn sample_tree() -> TreeNode {
    let mut root = TreeNode::new_directory("C:".to_string());
    root.id = 1;

    let mut users = TreeNode::new_directory("Users".to_string());
    users.id = 2;

    let mut kevin = TreeNode::new_directory("kevin".to_string());
    kevin.id = 3;

    let mut photo = TreeNode::new_file("photo.jpg".to_string(), 2000);
    photo.id = 4;

    let mut docs = TreeNode::new_directory("docs".to_string());
    docs.id = 5;
    let mut notes = TreeNode::new_file("notes.txt".to_string(), 100);
    notes.id = 6;
    docs.add_child(notes);

    kevin.add_child(photo);
    kevin.add_child(docs);
    users.add_child(kevin);
    root.add_child(users);

    let mut pagefile = TreeNode::new_file("pagefile.sys".to_string(), 5000);
    pagefile.id = 7;
    root.add_child(pagefile);

    root
}

#[test]
fn remove_descendant_updates_all_ancestors() {
    let mut root = sample_tree();

    let removed = root.remove_descendant(&[2, 3, 5, 6]).expect("notes.txt sollte gefunden werden");
    assert_eq!(removed.name, "notes.txt");
    assert_eq!(removed.total_size, 100);

    let docs = &root.children[0].children[0].children[1];
    assert_eq!(docs.name, "docs");
    assert!(docs.children.is_empty());
    assert_eq!(docs.total_size, 0);
    assert_eq!(docs.file_count, 0);

    let kevin = &root.children[0].children[0];
    assert_eq!(kevin.total_size, 2000);
    assert_eq!(kevin.file_count, 1);

    let users = &root.children[0];
    assert_eq!(users.total_size, 2000);
    assert_eq!(users.file_count, 1);

    assert_eq!(root.total_size, 2000 + 5000);
    assert_eq!(root.file_count, 2);
    assert_eq!(root.dir_count, 4);
}

#[test]
fn remove_descendant_of_a_directory_drops_its_whole_subtree() {
    let mut root = sample_tree();

    let removed = root.remove_descendant(&[2, 3]).expect("kevin sollte gefunden werden");
    assert_eq!(removed.name, "kevin");
    assert_eq!(removed.total_size, 2100);
    assert_eq!(removed.file_count, 2);

    let users = &root.children[0];
    assert!(users.children.is_empty());
    assert_eq!(users.total_size, 0);
    assert_eq!(users.file_count, 0);
    assert_eq!(users.dir_count, 1);

    assert_eq!(root.total_size, 5000);
    assert_eq!(root.file_count, 1);
    assert_eq!(root.dir_count, 2);
}

#[test]
fn remove_descendant_with_unknown_chain_returns_none_and_changes_nothing() {
    let mut root = sample_tree();
    let before_total = root.total_size;
    let before_file_count = root.file_count;
    let before_dir_count = root.dir_count;

    assert!(root.remove_descendant(&[2, 999]).is_none());
    assert!(root.remove_descendant(&[999]).is_none());

    assert_eq!(root.total_size, before_total);
    assert_eq!(root.file_count, before_file_count);
    assert_eq!(root.dir_count, before_dir_count);
}

#[test]
fn remove_descendant_with_empty_chain_returns_none() {
    let mut root = sample_tree();
    assert!(root.remove_descendant(&[]).is_none());
    assert_eq!(root.children.len(), 2);
}

#[test]
fn test_tree_building() {
    let mut entries = HashMap::new();
    entries.insert(5, FileEntry::new(5, 5, String::new(), 0, true));
    entries.insert(100, FileEntry::new(100, 5, "Users".to_string(), 0, true));
    entries.insert(101, FileEntry::new(101, 100, "test.txt".to_string(), 1024, false));

    let builder = TreeBuilder::new(entries);
    let tree = builder.build();

    assert_eq!(tree.children.len(), 1);
    assert_eq!(tree.children[0].name, "Users");
    assert_eq!(tree.children[0].total_size, 1024);
}

#[test]
fn test_format_size() {
    assert_eq!(format_size(0), "0 B");
    assert_eq!(format_size(500), "500 B");
    assert_eq!(format_size(1024), "1.00 KB");
    assert_eq!(format_size(1536), "1.50 KB");
    assert_eq!(format_size(1024 * 1024), "1.00 MB");
    assert_eq!(format_size(1024 * 1024 * 1024), "1.00 GB");
    assert_eq!(format_size(1024u64 * 1024 * 1024 * 1024), "1.00 TB");
}

#[test]
fn test_tree_node_creation() {
    let file = TreeNode::new_file("test.txt".to_string(), 1024);
    assert_eq!(file.name, "test.txt");
    assert_eq!(file.total_size, 1024);
    assert!(!file.is_directory);

    let dir = TreeNode::new_directory("Documents".to_string());
    assert_eq!(dir.name, "Documents");
    assert!(dir.is_directory);
    assert_eq!(dir.total_size, 0);
}

#[test]
fn test_tree_node_add_child() {
    let mut dir = TreeNode::new_directory("Documents".to_string());
    let file1 = TreeNode::new_file("file1.txt".to_string(), 1000);
    let file2 = TreeNode::new_file("file2.txt".to_string(), 2000);

    dir.add_child(file1);
    dir.add_child(file2);

    assert_eq!(dir.children.len(), 2);
    assert_eq!(dir.total_size, 3000);
    assert_eq!(dir.file_count, 2);
}

#[test]
fn test_tree_builder() {
    let mut entries = HashMap::new();
    entries.insert(
        5,
        FileEntry {
            mft_reference: 5,
            parent_reference: 5,
            name: String::new(),
            size: 0,
            is_directory: true,
            is_hidden: false,
            is_system: false,
        },
    );
    entries.insert(
        100,
        FileEntry {
            mft_reference: 100,
            parent_reference: 5,
            name: "Users".to_string(),
            size: 0,
            is_directory: true,
            is_hidden: false,
            is_system: false,
        },
    );
    entries.insert(
        101,
        FileEntry {
            mft_reference: 101,
            parent_reference: 100,
            name: "test.txt".to_string(),
            size: 1024,
            is_directory: false,
            is_hidden: false,
            is_system: false,
        },
    );

    let builder = TreeBuilder::new(entries);
    let tree = builder.build();

    assert_eq!(tree.children.len(), 1);
    assert_eq!(tree.children[0].name, "Users");
    assert_eq!(tree.children[0].total_size, 1024);
    assert_eq!(tree.children[0].children.len(), 1);
    assert_eq!(tree.children[0].children[0].name, "test.txt");
}

#[test]
fn test_tree_sorting() {
    let mut dir = TreeNode::new_directory("Root".to_string());
    dir.add_child(TreeNode::new_file("small.txt".to_string(), 100));
    dir.add_child(TreeNode::new_file("large.txt".to_string(), 10000));
    dir.add_child(TreeNode::new_file("medium.txt".to_string(), 1000));

    dir.sort_by_size();

    assert_eq!(dir.children[0].name, "large.txt");
    assert_eq!(dir.children[1].name, "medium.txt");
    assert_eq!(dir.children[2].name, "small.txt");
}

#[test]
fn test_top_n() {
    let mut root = TreeNode::new_directory("Root".to_string());

    let mut docs = TreeNode::new_directory("Documents".to_string());
    docs.add_child(TreeNode::new_file("big.pdf".to_string(), 50000));
    docs.add_child(TreeNode::new_file("small.txt".to_string(), 100));

    let mut pics = TreeNode::new_directory("Pictures".to_string());
    pics.add_child(TreeNode::new_file("huge.raw".to_string(), 100000));

    root.add_child(docs);
    root.add_child(pics);

    let top = TreeBuilder::top_n(&root, 3);

    assert!(top.len() <= 3);
    assert!(top[0].total_size >= top[1].total_size);
}

// Further cases.

/// What the size text is in floating point, as `{:.2}` formats it.
fn float_size_text(bytes: u64) -> String {
    const KB: u64 = 1024;
    const MB: u64 = KB * 1024;
    const GB: u64 = MB * 1024;
    const TB: u64 = GB * 1024;
    if bytes >= TB {
        format!("{:.2} TB", bytes as f64 / TB as f64)
    } else if bytes >= GB {
        format!("{:.2} GB", bytes as f64 / GB as f64)
    } else if bytes >= MB {
        format!("{:.2} MB", bytes as f64 / MB as f64)
    } else if bytes >= KB {
        format!("{:.2} KB", bytes as f64 / KB as f64)
    } else {
        format!("{} B", bytes)
    }
}

#[test]
fn format_size_matches_float_formatting() {
    let mut values: Vec<u64> = (0..5000u64).collect();
    for k in 0..4000u64 {
        values.push(1024 * 1024 - 2000 + k);
        values.push(1152 + k * 1024);
        values.push(k * 1_048_573);
    }
    for shift in 10..64u32 {
        let p = 1u64 << shift;
        for d in [0u64, 1, 2, 3, 5, 7, 511, 512, 513, 1023] {
            values.push(p.wrapping_add(d));
            values.push(p.wrapping_sub(d));
            values.push(p + p / 8 + d);
            values.push(p / 1000 * 999 + d);
        }
    }
    values.push(u64::MAX);
    values.push(u64::MAX - 1);
    values.push((1u64 << 53) + 1);
    values.push((1u64 << 60) + (1u64 << 57) + 12345);
    for v in values {
        assert_eq!(format_size(v), float_size_text(v), "bytes = {}", v);
    }
}

#[test]
fn format_size_rounds_ties_to_even() {
    // 1.125 KB and 1.375 KB lie exactly between two hundredths.
    assert_eq!(format_size(1152), "1.12 KB");
    assert_eq!(format_size(1408), "1.38 KB");
    assert_eq!(format_size(1023), "1023 B");
    assert_eq!(format_size(1024 * 1024 - 1), "1024.00 KB");
}

#[test]
fn size_string_formats_the_total() {
    let mut dir = TreeNode::new_directory("d".to_string());
    dir.add_child(TreeNode::new_file("a".to_string(), 1536));
    assert_eq!(dir.size_string(), "1.50 KB");
}

#[test]
fn node_count_counts_the_whole_subtree() {
    assert_eq!(sample_tree().node_count(), 7);
    assert_eq!(TreeNode::new_file("x".to_string(), 1).node_count(), 1);
}

#[test]
fn node_at_and_path_of_follow_the_chain() {
    let root = sample_tree();
    assert_eq!(root.node_at(&[2, 3, 5]).unwrap().name, "docs");
    assert_eq!(root.node_at(&[]).unwrap().name, "C:");
    assert!(root.node_at(&[2, 7]).is_none());
    assert_eq!(root.path_of(&[2, 3, 5, 6]).unwrap(), "C:\\Users\\kevin\\docs\\notes.txt");
    assert_eq!(root.path_of(&[]).unwrap(), "C:");
    assert!(root.path_of(&[7, 1]).is_none());
}

#[test]
fn removing_what_was_added_restores_the_sums() {
    let mut root = sample_tree();
    let before = (root.total_size, root.file_count, root.dir_count, root.children.len());
    let mut extra = TreeNode::new_directory("tmp".to_string());
    extra.id = 42;
    extra.add_child(TreeNode::new_file("t.bin".to_string(), 777));
    root.add_child(extra);
    assert_eq!(root.total_size, before.0 + 777);
    let removed = root.remove_descendant(&[42]).unwrap();
    assert_eq!(removed.total_size, 777);
    assert_eq!((root.total_size, root.file_count, root.dir_count, root.children.len()), before);
}

#[test]
fn sorting_is_recursive_and_stable() {
    let mut root = TreeNode::new_directory("r".to_string());
    let mut a = TreeNode::new_directory("a".to_string());
    a.add_child(TreeNode::new_file("a1".to_string(), 1));
    a.add_child(TreeNode::new_file("a2".to_string(), 9));
    root.add_child(a);
    root.add_child(TreeNode::new_file("b".to_string(), 10));
    root.add_child(TreeNode::new_file("c".to_string(), 10));
    root.sort_by_size();
    let names: Vec<&str> = root.children.iter().map(|c| c.name.as_str()).collect();
    assert_eq!(names, vec!["a", "b", "c"]);
    assert_eq!(root.children[0].children[0].name, "a2");
    assert_eq!(root.total_size, 30);
}

#[test]
fn top_n_lists_all_nodes_by_size() {
    let root = sample_tree();
    let top = TreeBuilder::top_n(&root, 100);
    let sizes: Vec<u64> = top.iter().map(|n| n.total_size).collect();
    assert_eq!(sizes, vec![7100, 5000, 2100, 2100, 2000, 100, 100]);
    let names: Vec<&str> = top.iter().map(|n| n.name.as_str()).collect();
    assert_eq!(names, vec!["C:", "pagefile.sys", "Users", "kevin", "photo.jpg", "docs", "notes.txt"]);
    assert_eq!(TreeBuilder::top_n(&root, 2).len(), 2);
    assert!(TreeBuilder::top_n(&root, 0).is_empty());
}

#[test]
fn builder_sums_sizes_and_counts() {
    let mut entries = HashMap::new();
    entries.insert(5, FileEntry::new(5, 5, String::new(), 0, true));
    entries.insert(10, FileEntry::new(10, 5, "a".to_string(), 0, true));
    entries.insert(11, FileEntry::new(11, 10, "x.bin".to_string(), 300, false));
    entries.insert(12, FileEntry::new(12, 10, "y.bin".to_string(), 700, false));
    entries.insert(13, FileEntry::new(13, 5, "z.bin".to_string(), 50, false));
    entries.insert(14, FileEntry::new(14, 999, "orphan".to_string(), 1, false));
    let builder = TreeBuilder::new(entries);
    assert!(builder.fits_in_u64());
    let tree = builder.build();
    assert_eq!(tree.total_size, 1050);
    assert_eq!(tree.file_count, 3);
    assert_eq!(tree.dir_count, 2);
    assert_eq!(tree.children[0].name, "a");
    assert_eq!(tree.children[0].id, 10);
    assert_eq!(tree.children[1].name, "z.bin");
}

#[test]
fn file_entry_root_is_record_five() {
    assert!(FileEntry::new(5, 5, String::new(), 0, true).is_root());
    assert!(!FileEntry::new(6, 5, String::new(), 0, true).is_root());
}

#[test]
fn top_n_with_paths_gives_full_paths() {
    let mut root = TreeNode::new_directory("C:".to_string());
    let mut docs = TreeNode::new_directory("Documents".to_string());
    docs.add_child(TreeNode::new_file("big.pdf".to_string(), 50000));
    docs.add_child(TreeNode::new_file("small.txt".to_string(), 100));
    let mut pics = TreeNode::new_directory("Pictures".to_string());
    pics.add_child(TreeNode::new_file("huge.raw".to_string(), 100000));
    root.add_child(docs);
    root.add_child(pics);

    let top = TreeBuilder::top_n_with_paths(&root, 4);
    let paths: Vec<&str> = top.iter().map(|(p, _)| p.as_str()).collect();
    assert_eq!(paths, vec!["C:", "C:\\Pictures", "C:\\Pictures\\huge.raw", "C:\\Documents"]);
    assert_eq!(top[0].1.total_size, 150100);
    assert_eq!(top[2].1.name, "huge.raw");

    let unnamed = TreeNode::new_directory(String::new());
    let mut root = unnamed;
    root.add_child(TreeNode::new_file("a.txt".to_string(), 5));
    let top = TreeBuilder::top_n_with_paths(&root, 10);
    assert_eq!(top.len(), 2);
    assert_eq!(top[0].0, "");
    assert_eq!(top[1].0, "a.txt");
}
