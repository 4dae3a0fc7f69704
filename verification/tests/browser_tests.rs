use cleaner::browser::{App, Busy, SortMode, StatusMessage, WorkerReport};
use cleaner::patterns::PatternMatcher;
use cleaner::tree::{DirTree, RawEntry, ScanProgress};

fn raw(parent: usize, name: &str, is_dir: bool, size: u64) -> RawEntry {
    RawEntry { parent, name: String::from(name), size, is_dir }
}

/// The fixture tree: `a/node_modules/pkg/file.js` (10 B),
/// `a/src/main.rs` (5 B), `b/target/debug/bin` (20 B).
fn fixture_tree() -> DirTree {
    let entries = vec![
        raw(0, "a", true, 0),            // node 1
        raw(1, "node_modules", true, 0), // node 2
        raw(2, "pkg", true, 0),          // node 3
        raw(3, "file.js", false, 10),    // node 4
        raw(1, "src", true, 0),          // node 5
        raw(5, "main.rs", false, 5),     // node 6
        raw(0, "b", true, 0),            // node 7
        raw(7, "target", true, 0),       // node 8
        raw(8, "debug", true, 0),        // node 9
        raw(9, "bin", false, 20),        // node 10
    ];
    let matcher = PatternMatcher::new();
    let mut progress = ScanProgress::new();
    DirTree::build_with_progress(&entries, &matcher, &mut progress)
}

fn fixture_app() -> App {
    App::new_with_tree(PatternMatcher::new(), fixture_tree())
}

fn names(app: &App) -> Vec<&str> {
    app.entries.iter().map(|e| e.name.as_str()).collect()
}

#[test]
fn root_listing_is_size_sorted() {
    let app = fixture_app();
    assert_eq!(app.current, 0);
    assert_eq!(names(&app), vec!["b", "a"]);
    assert_eq!(app.total_size, 35);
    assert_eq!(app.selected, 0);
    assert!(!app.is_busy());
    assert_eq!(app.sort_mode, SortMode::Size);
    assert!(app.path_stack.is_empty());
    assert!(!app.confirm_delete);
    assert!(!app.confirm_clean);
    assert!(app.status.is_none());
}

#[test]
fn cursor_stays_in_bounds() {
    let mut app = fixture_app();
    app.move_up();
    assert_eq!(app.selected, 0);
    app.move_down();
    assert_eq!(app.selected, 1);
    app.move_down();
    assert_eq!(app.selected, 1);
    app.go_top();
    assert_eq!(app.selected, 0);
    app.go_bottom();
    assert_eq!(app.selected, 1);
}

#[test]
fn enter_descends_and_back_reselects() {
    let mut app = fixture_app();
    app.move_down(); // select "a"
    app.enter();
    assert_eq!(app.current, 1);
    assert_eq!(names(&app), vec!["..", "node_modules", "src"]);
    assert_eq!(app.path_stack, vec![0]);
    // going back restores the root listing with the exited child
    // selected again
    app.go_back();
    assert_eq!(app.current, 0);
    assert!(app.path_stack.is_empty());
    assert_eq!(app.entries[app.selected].name, "a");
}

#[test]
fn enter_on_a_file_is_a_no_op() {
    let mut app = fixture_app();
    app.move_down();
    app.enter(); // into a
    app.go_bottom(); // select src? last row is "src"
    app.enter(); // into src
    assert_eq!(app.current, 5);
    app.move_down(); // select main.rs
    let before = app.current;
    app.enter();
    assert_eq!(app.current, before);
}

#[test]
fn dotdot_row_goes_back() {
    let mut app = fixture_app();
    app.move_down();
    app.enter(); // into a
    app.go_top(); // select ".."
    app.enter();
    assert_eq!(app.current, 0);
    assert!(app.path_stack.is_empty());
    // the exited child is selected again
    assert_eq!(app.entries[app.selected].name, "a");
}

#[test]
fn toggle_sort_switches_to_name_order() {
    let mut app = fixture_app();
    assert_eq!(app.sort_mode, SortMode::Size);
    app.toggle_sort();
    assert_eq!(app.sort_mode, SortMode::Name);
    assert_eq!(names(&app), vec!["a", "b"]);
    app.toggle_sort();
    assert_eq!(app.sort_mode, SortMode::Size);
    assert_eq!(names(&app), vec!["b", "a"]);
}

#[test]
fn delete_flow_patches_the_tree() {
    // the interactive single-delete of `a/src/main.rs`: `a`'s recorded
    // size drops by exactly 5 and the row leaves the listing, with no
    // new scan of anything
    let mut app = fixture_app();
    app.move_down();
    app.enter(); // into a (node 1)
    app.go_bottom(); // select "src"
    app.enter(); // into src (node 5)
    app.move_down(); // select "main.rs"
    app.toggle_delete_confirm();
    assert!(app.confirm_delete);

    let req = app.delete_selected().expect("a deletion request");
    assert_eq!(req.node, 6);
    assert!(!req.is_dir);
    assert!(app.is_deleting());
    assert!(!app.confirm_delete);

    // while the worker runs, mutating requests are rejected
    assert!(app.delete_selected().is_none());
    assert!(app.clean_current().is_none());
    app.tick(WorkerReport::Pending);
    assert!(app.is_deleting());

    app.tick(WorkerReport::DeleteDone { ok: true, error: String::new() });
    assert!(!app.is_busy());
    let tree = app.tree.as_ref().expect("tree");
    assert_eq!(tree.nodes[5].size, 0); // src
    assert_eq!(tree.nodes[1].size, 10); // a: exactly 5 less
    assert_eq!(tree.nodes[0].size, 30); // root
    assert!(!tree.nodes[5].children.contains(&6));
    assert_eq!(names(&app), vec![".."]);
    // the deleted name is no longer shown, so the cursor lands on row 0
    assert_eq!(app.selected, 0);
    assert!(matches!(
        app.status,
        Some(StatusMessage::Deleted { ref name, size: 5 }) if name == "main.rs"
    ));
}

#[test]
fn failed_delete_leaves_the_tree_alone() {
    let mut app = fixture_app();
    app.move_down();
    app.enter(); // into a
    app.go_bottom();
    app.enter(); // into src
    app.move_down();
    let _req = app.delete_selected().expect("a deletion request");
    app.tick(WorkerReport::DeleteDone { ok: false, error: String::from("permission denied") });
    assert!(!app.is_busy());
    let tree = app.tree.as_ref().expect("tree");
    assert_eq!(tree.nodes[1].size, 15); // untouched
    assert!(tree.nodes[5].children.contains(&6));
    assert!(matches!(
        app.status,
        Some(StatusMessage::DeleteFailed { ref error }) if error == "permission denied"
    ));
}

#[test]
fn dotdot_cannot_be_deleted() {
    let mut app = fixture_app();
    app.move_down();
    app.enter(); // into a; ".." selected after go_top
    app.go_top();
    app.toggle_delete_confirm();
    assert!(!app.confirm_delete);
    assert!(app.delete_selected().is_none());
    assert!(!app.is_busy());
}

#[test]
fn clean_flow_requests_a_rebuild() {
    let mut app = fixture_app();
    app.toggle_clean_confirm();
    assert!(app.confirm_clean);
    let req = app.clean_current().expect("a clean request");
    assert_eq!(req.node, 0);
    assert!(app.is_cleaning());
    assert!(!app.confirm_clean);

    app.tick(WorkerReport::CleanDone { dirs: 2, files: 0, bytes: 30 });
    assert!(!app.is_busy());
    assert!(app.needs_rebuild);
    assert!(matches!(
        app.status,
        Some(StatusMessage::Cleaned { dirs: 2, files: 0, bytes: 30 })
    ));

    // the caller rebuilds and installs; the browser shows the new root
    app.install_tree(fixture_tree());
    assert!(!app.needs_rebuild);
    assert_eq!(app.current, 0);
    assert_eq!(names(&app), vec!["b", "a"]);
}

#[test]
fn install_at_returns_to_the_shown_directory() {
    let mut app = fixture_app();
    app.move_down();
    app.enter(); // into a (node 1)
    app.refresh();
    assert!(app.needs_rebuild);
    // the caller rebuilds and re-resolves the shown directory by name
    app.install_tree_at(fixture_tree(), &vec![String::from("a")]);
    assert!(!app.needs_rebuild);
    assert_eq!(app.current, 1);
    assert_eq!(names(&app), vec!["..", "node_modules", "src"]);
    // a stale path stops at the deepest directory that still exists
    app.install_tree_at(fixture_tree(), &vec![String::from("a"), String::from("gone")]);
    assert_eq!(app.current, 1);
}

#[test]
fn failed_clean_surfaces_a_message() {
    let mut app = fixture_app();
    let _req = app.clean_current().expect("a clean request");
    assert!(app.is_cleaning());
    app.tick(WorkerReport::CleanFailed { error: String::from("clean thread panicked") });
    assert!(!app.is_busy());
    assert!(!app.needs_rebuild);
    let tree = app.tree.as_ref().expect("tree");
    assert_eq!(tree.nodes[0].size, 35); // untouched
    assert!(matches!(
        app.status,
        Some(StatusMessage::CleanFailed { ref error }) if error == "clean thread panicked"
    ));
}

#[test]
fn refresh_asks_for_a_rebuild() {
    let mut app = fixture_app();
    app.refresh();
    assert!(app.needs_rebuild);
    assert!(matches!(app.status, Some(StatusMessage::Refreshed)));
    app.clear_status();
    assert!(app.status.is_none());
}

#[test]
fn selected_entry_follows_the_cursor() {
    let mut app = fixture_app();
    assert_eq!(app.selected_entry().expect("a row").name, "b");
    app.move_down();
    assert_eq!(app.selected_entry().expect("a row").name, "a");

    let empty = App::new(PatternMatcher::new());
    assert!(empty.selected_entry().is_none());
}

#[test]
fn busy_guard_blocks_navigation() {
    let mut app = fixture_app();
    app.move_down();
    let _req = app.delete_selected().expect("a deletion request");
    assert!(matches!(app.busy, Busy::Deleting(_)));
    let before_current = app.current;
    let before_selected = app.selected;
    app.enter();
    app.go_back();
    assert_eq!(app.current, before_current);
    assert_eq!(app.selected, before_selected);
    app.refresh();
    assert!(!app.needs_rebuild);
}
