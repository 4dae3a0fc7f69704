use cleaner::config::Config;
use cleaner::deleter::{DeleteRecord, Deleter, dir_size_fast, resolve_results};
use cleaner::scanner::{FsEntry, FsSnapshot, Scanner};
use cleaner::stats::Stats;

fn entry(parent: usize, name: &str, is_dir: bool, size: u64) -> FsEntry {
    FsEntry { parent, name: String::from(name), is_dir, size, age_secs: Some(1_000_000) }
}

fn default_config(days: Option<u64>) -> Config {
    Config {
        directories: cleaner::config::default_directories(),
        files: cleaner::config::default_files(),
        days,
    }
}

/// The fixture: `a/node_modules/pkg/file.js` (10 B), `a/src/main.rs`
/// (5 B), `b/target/debug/bin` (20 B) under one root.
fn fixture() -> FsSnapshot {
    FsSnapshot {
        entries: vec![
            entry(0, "root", true, 0),        // 0
            entry(0, "a", true, 0),           // 1
            entry(1, "node_modules", true, 0),// 2
            entry(2, "pkg", true, 0),         // 3
            entry(3, "file.js", false, 10),   // 4
            entry(1, "src", true, 0),         // 5
            entry(5, "main.rs", false, 5),    // 6
            entry(0, "b", true, 0),           // 7
            entry(7, "target", true, 0),      // 8
            entry(8, "debug", true, 0),       // 9
            entry(9, "bin", false, 20),       // 10
        ],
    }
}

#[test]
fn scenario_live_run() {
    // live run over the fixture: two directories deleted, 30 bytes freed,
    // and the matches are exactly the two disposable roots, so only
    // `a/src/main.rs` (and the ordinary directories) remain afterwards.
    let fs = fixture();
    let scanner = Scanner::new(4, &default_config(None));
    let (results, scanned) = scanner.scan(&fs);
    assert_eq!(results.len(), 2);
    assert_eq!(results[0].node, 2);
    assert!(results[0].is_dir);
    assert_eq!(results[1].node, 8);
    assert!(results[1].is_dir);
    // pruning: pkg, file.js, debug and bin are never visited
    assert_eq!(scanned, 7);

    let records = resolve_results(&fs, &results);
    assert_eq!(records[0].size, 10);
    assert_eq!(records[1].size, 20);

    let mut deleter = Deleter::new(Stats::new(), false, false);
    deleter.process(&records);
    assert_eq!(deleter.stats.directories(), 2);
    assert_eq!(deleter.stats.files(), 0);
    assert_eq!(deleter.stats.bytes(), 30);
    assert_eq!(deleter.stats.error_count(), 0);
}

#[test]
fn scenario_dry_run_matches_live() {
    // a dry run over the same fixture reports the same statistics as the
    // live run, and nothing is handed to the caller for removal
    let fs = fixture();
    let scanner = Scanner::new(1, &default_config(None));
    let (results, _) = scanner.scan(&fs);
    let records = resolve_results(&fs, &results);

    let mut dry = Deleter::new(Stats::new(), true, false);
    dry.process(&records);
    assert_eq!(dry.stats.directories(), 2);
    assert_eq!(dry.stats.files(), 0);
    assert_eq!(dry.stats.bytes(), 30);
    assert_eq!(dry.stats.error_count(), 0);

    let mut live = Deleter::new(Stats::new(), false, false);
    live.process(&records);
    assert_eq!(dry.stats.directories(), live.stats.directories());
    assert_eq!(dry.stats.files(), live.stats.files());
    assert_eq!(dry.stats.bytes(), live.stats.bytes());
    assert_eq!(dry.stats.error_count(), live.stats.error_count());
}

#[test]
fn two_dry_runs_are_identical() {
    let fs = fixture();
    let scanner = Scanner::new(2, &default_config(None));

    let (results1, scanned1) = scanner.scan(&fs);
    let records1 = resolve_results(&fs, &results1);
    let mut first = Deleter::new(Stats::new(), true, false);
    first.process(&records1);

    let (results2, scanned2) = scanner.scan(&fs);
    let records2 = resolve_results(&fs, &results2);
    let mut second = Deleter::new(Stats::new(), true, false);
    second.process(&records2);

    assert_eq!(scanned1, scanned2);
    assert_eq!(results1, results2);
    assert_eq!(first.stats.directories(), second.stats.directories());
    assert_eq!(first.stats.files(), second.stats.files());
    assert_eq!(first.stats.bytes(), second.stats.bytes());
    assert_eq!(first.stats.error_count(), second.stats.error_count());
}

#[test]
fn worker_count_does_not_change_the_scan() {
    // the worker count is a performance knob: what is reported is a
    // function of the tree and the configuration alone
    let fs = fixture();
    let one = Scanner::new(1, &default_config(None)).scan(&fs);
    let many = Scanner::new(16, &default_config(None)).scan(&fs);
    assert_eq!(one.0, many.0);
    assert_eq!(one.1, many.1);
}

#[test]
fn consumption_order_does_not_change_totals() {
    // parallel consumers take items in arbitrary order; the totals match
    let records = vec![
        DeleteRecord { is_dir: true, size: 10, failed: false },
        DeleteRecord { is_dir: false, size: 5, failed: true },
        DeleteRecord { is_dir: false, size: 7, failed: false },
    ];
    let mut reversed = records.clone();
    reversed.reverse();

    let mut fwd = Deleter::new(Stats::new(), false, false);
    fwd.process(&records);
    let mut rev = Deleter::new(Stats::new(), false, false);
    rev.process(&reversed);
    assert_eq!(fwd.stats.directories(), rev.stats.directories());
    assert_eq!(fwd.stats.files(), rev.stats.files());
    assert_eq!(fwd.stats.bytes(), rev.stats.bytes());
    assert_eq!(fwd.stats.error_count(), rev.stats.error_count());
}

#[test]
fn too_recent_directory_is_skipped_but_descended() {
    // `node_modules` is disposable but too recent: it is not reported,
    // and the walk descends into it, finding an old `.DS_Store` below
    let mut fs = fixture();
    fs.entries[2].age_secs = Some(100);
    fs.entries.push(FsEntry {
        parent: 2,
        name: String::from(".DS_Store"),
        is_dir: false,
        size: 1,
        age_secs: Some(1_000_000),
    });
    let scanner = Scanner::new(1, &default_config(Some(1)));
    let (results, _) = scanner.scan(&fs);
    let nodes: Vec<usize> = results.iter().map(|r| r.node).collect();
    assert!(!nodes.contains(&2));
    assert!(nodes.contains(&11));
    assert!(nodes.contains(&8));
}

#[test]
fn rescan_after_clean_finds_nothing() {
    // what a live run over the fixture leaves behind: the two disposable
    // subtrees are gone; a second scan reports zero matches
    let survivors = FsSnapshot {
        entries: vec![
            entry(0, "root", true, 0),
            entry(0, "a", true, 0),
            entry(1, "src", true, 0),
            entry(2, "main.rs", false, 5),
            entry(0, "b", true, 0),
        ],
    };
    let scanner = Scanner::new(1, &default_config(None));
    let (results, scanned) = scanner.scan(&survivors);
    assert!(results.is_empty());
    assert_eq!(scanned, 5);
}

#[test]
fn unreadable_metadata_fails_the_age_filter() {
    let mut fs = fixture();
    fs.entries[2].age_secs = None;
    let scanner = Scanner::new(1, &default_config(Some(0)));
    let (results, _) = scanner.scan(&fs);
    let nodes: Vec<usize> = results.iter().map(|r| r.node).collect();
    assert!(!nodes.contains(&2));
    assert!(nodes.contains(&8));
}

#[test]
fn failed_removals_count_as_errors() {
    let records = vec![
        DeleteRecord { is_dir: true, size: 10, failed: true },
        DeleteRecord { is_dir: false, size: 4, failed: false },
    ];
    let mut deleter = Deleter::new(Stats::new(), false, false);
    deleter.process(&records);
    assert_eq!(deleter.stats.directories(), 0);
    assert_eq!(deleter.stats.files(), 1);
    assert_eq!(deleter.stats.bytes(), 4);
    assert_eq!(deleter.stats.error_count(), 1);
}

#[test]
fn batching_covers_every_item() {
    // more items than one batch holds: each still counts exactly once
    let mut records = Vec::new();
    for _ in 0..150 {
        records.push(DeleteRecord { is_dir: false, size: 2, failed: false });
    }
    let mut deleter = Deleter::new(Stats::new(), false, false);
    deleter.process(&records);
    assert_eq!(deleter.stats.files(), 150);
    assert_eq!(deleter.stats.bytes(), 300);
}

#[test]
fn byte_counter_saturates() {
    let mut stats = Stats::new();
    stats.add_bytes(u64::MAX - 1);
    stats.add_bytes(10);
    assert_eq!(stats.bytes(), u64::MAX);
}

#[test]
fn stats_counters_accumulate() {
    let mut stats = Stats::new();
    assert_eq!(stats.directories(), 0);
    assert_eq!(stats.files(), 0);
    assert_eq!(stats.bytes(), 0);
    assert_eq!(stats.error_count(), 0);
    stats.add_directory();
    stats.add_directory();
    stats.add_file();
    stats.add_bytes(42);
    stats.add_error();
    assert_eq!(stats.directories(), 2);
    assert_eq!(stats.files(), 1);
    assert_eq!(stats.bytes(), 42);
    assert_eq!(stats.error_count(), 1);
}

#[test]
fn subtree_sizes_from_the_walk() {
    let fs = fixture();
    assert_eq!(dir_size_fast(&fs, 0), 35);
    assert_eq!(dir_size_fast(&fs, 1), 15);
    assert_eq!(dir_size_fast(&fs, 2), 10);
    assert_eq!(dir_size_fast(&fs, 7), 20);
    assert_eq!(dir_size_fast(&fs, 6), 5);
}
