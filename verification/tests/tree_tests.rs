use cleaner::patterns::PatternMatcher;
use cleaner::tree::{DirEntry, DirTree, RawEntry, ScanProgress, sort_by_name, sort_by_size};

fn raw(parent: usize, name: &str, is_dir: bool, size: u64) -> RawEntry {
    RawEntry { parent, name: String::from(name), size, is_dir }
}

/// The fixture as walk entries; entry `i` becomes node `i + 1` and the
/// root is node 0.
fn fixture_entries() -> Vec<RawEntry> {
    vec![
        raw(0, "a", true, 0),            // node 1
        raw(1, "node_modules", true, 0), // node 2
        raw(2, "pkg", true, 0),          // node 3
        raw(3, "file.js", false, 10),    // node 4
        raw(1, "src", true, 0),          // node 5
        raw(5, "main.rs", false, 5),     // node 6
        raw(0, "b", true, 0),            // node 7
        raw(7, "target", true, 0),       // node 8
        raw(8, "debug", true, 0),        // node 9
        raw(9, "bin", false, 20),        // node 10
    ]
}

fn build_fixture() -> (DirTree, ScanProgress) {
    let entries = fixture_entries();
    let matcher = PatternMatcher::new();
    let mut progress = ScanProgress::new();
    let tree = DirTree::build_with_progress(&entries, &matcher, &mut progress);
    (tree, progress)
}

/// Every attached directory's recorded size equals the sum of its
/// children's recorded sizes; checked recursively from the root.
fn check_aggregation(tree: &DirTree) {
    let mut queue = vec![0usize];
    while let Some(k) = queue.pop() {
        let node = &tree.nodes[k];
        if node.is_dir {
            let sum: u64 = node.children.iter().map(|c| tree.nodes[*c].size).sum();
            assert_eq!(node.size, sum, "directory {} out of balance", k);
            queue.extend(node.children.iter().copied());
        }
    }
}

#[test]
fn build_aggregates_sizes() {
    let (tree, progress) = build_fixture();
    assert_eq!(tree.nodes.len(), 11);
    assert_eq!(tree.nodes[0].size, 35); // root
    assert_eq!(tree.nodes[1].size, 15); // a
    assert_eq!(tree.nodes[2].size, 10); // node_modules
    assert_eq!(tree.nodes[5].size, 5); // src
    assert_eq!(tree.nodes[7].size, 20); // b
    assert_eq!(tree.nodes[8].size, 20); // target
    check_aggregation(&tree);
    assert_eq!(progress.get_files(), 3);
    assert_eq!(progress.get_dirs(), 7);
    assert_eq!(progress.get_bytes(), 35);
    assert!(progress.is_done());
    assert_eq!(progress.get_phase(), 1);
}

#[test]
fn build_marks_disposable_entries() {
    let (tree, _) = build_fixture();
    assert!(tree.nodes[2].is_temp); // node_modules
    assert!(tree.nodes[8].is_temp); // target
    assert!(!tree.nodes[1].is_temp); // a
    assert!(!tree.nodes[6].is_temp); // main.rs
}

#[test]
fn listings_are_sorted_and_have_parent_rows() {
    let (tree, _) = build_fixture();
    // the root has no parent-navigation row; directories come first,
    // larger sizes first
    let top = tree.get_children(0);
    assert_eq!(top.len(), 2);
    assert_eq!(top[0].name, "b");
    assert_eq!(top[0].size, 20);
    assert_eq!(top[1].name, "a");
    assert_eq!(top[1].size, 15);

    // a non-root listing starts with the parent-navigation row
    let under_a = tree.get_children(1);
    assert_eq!(under_a.len(), 3);
    assert_eq!(under_a[0].name, "..");
    assert_eq!(under_a[0].node, 0);
    assert_eq!(under_a[1].name, "node_modules");
    assert_eq!(under_a[2].name, "src");

    // no filesystem access on the browsing path: a listing of a file
    // node is just its parent-navigation row
    let under_file = tree.get_children(6);
    assert_eq!(under_file.len(), 1);
    assert_eq!(under_file[0].name, "..");
}

#[test]
fn delete_entry_patches_ancestors() {
    // deleting `a/src/main.rs` (5 B) drops exactly 5 from src, a and the
    // root, removes the row from src's children, and rescans nothing
    let (mut tree, _) = build_fixture();
    tree.delete_entry(6, false);
    assert_eq!(tree.nodes[5].size, 0); // src
    assert_eq!(tree.nodes[1].size, 10); // a
    assert_eq!(tree.nodes[0].size, 30); // root
    assert_eq!(tree.nodes[7].size, 20); // b untouched
    assert!(!tree.nodes[5].children.contains(&6));
    check_aggregation(&tree);
}

#[test]
fn delete_entry_discards_a_directory_subtree() {
    let (mut tree, _) = build_fixture();
    tree.delete_entry(2, true); // node_modules
    assert_eq!(tree.nodes[1].size, 5); // a keeps only src
    assert_eq!(tree.nodes[0].size, 25);
    assert!(!tree.nodes[1].children.contains(&2));
    assert!(tree.nodes[2].children.is_empty());
    check_aggregation(&tree);
}

fn row(name: &str, size: u64, is_dir: bool) -> DirEntry {
    DirEntry { node: 1, name: String::from(name), size, is_dir, is_temp: false }
}

#[test]
fn sort_by_size_orders_rows() {
    let mut rows = vec![
        row("small.txt", 1, false),
        row("big", 100, true),
        row("..", 0, true),
        row("large.bin", 50, false),
        row("tiny", 2, true),
    ];
    sort_by_size(&mut rows);
    let names: Vec<&str> = rows.iter().map(|e| e.name.as_str()).collect();
    assert_eq!(names, vec!["..", "big", "tiny", "large.bin", "small.txt"]);
}

#[test]
fn sort_by_name_is_case_insensitive() {
    let mut rows = vec![
        row("Zeta", 1, false),
        row("alpha", 1, false),
        row("..", 0, true),
        row("Beta", 9, true),
        row("gamma", 2, true),
    ];
    sort_by_name(&mut rows);
    let names: Vec<&str> = rows.iter().map(|e| e.name.as_str()).collect();
    // the parent row first, directories before files, then
    // case-insensitive name order within each group
    assert_eq!(names, vec!["..", "Beta", "gamma", "alpha", "Zeta"]);
}
