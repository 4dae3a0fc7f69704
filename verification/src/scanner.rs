//! Scan of a directory tree: match disposable entries against the pattern
//! set, apply the optional age filter, and prune at match boundaries.
//!
//! The caller walks the filesystem (never following symlinks, including
//! hidden entries) and records one `FsEntry` per visited object, parents
//! before children; the root is entry 0.  `Scanner::scan` then decides,
//! entry by entry, what the walk reports: a disposable directory that
//! passes the age filter is reported once and nothing below it is
//! inspected, while one that fails the age filter is treated as an
//! ordinary directory and descended into.

use vstd::prelude::*;
use crate::config::Config;
use crate::patterns::{PatternMatcher, dir_name_matches, file_name_matches, name_matches};

verus! {

/// One filesystem object, as recorded during a walk.  `parent` is the
/// index of the containing directory's entry; the root has `parent == 0`.
/// `age_secs` is the time since last modification, `None` when metadata
/// could not be read (a safe default that fails the age filter).
#[derive(Debug, Clone)]
pub struct FsEntry {
    pub parent: usize,
    pub name: String,
    pub is_dir: bool,
    pub size: u64,
    pub age_secs: Option<u64>,
}

/// A recorded walk of one directory tree, parents before children.
#[derive(Debug, Clone)]
pub struct FsSnapshot {
    pub entries: Vec<FsEntry>,
}

/// Entries are well-formed: the root is a directory that is its own
/// parent, and every other entry's parent is an earlier directory entry.
pub open spec fn snap_wf(s: Seq<FsEntry>) -> bool {
    &&& s.len() >= 1
    &&& s[0].parent == 0
    &&& s[0].is_dir
    &&& forall|i: int|
        1 <= i < s.len() ==> (#[trigger] s[i].parent) < i && s[s[i].parent as int].is_dir
}

impl FsSnapshot {
    pub open spec fn wf(&self) -> bool {
        snap_wf(self.entries@)
    }
}

/// The age filter passes: no threshold is configured, or the entry's
/// modification time is known and older than the threshold in days.
pub open spec fn age_eligible(days: Option<u64>, age_secs: Option<u64>) -> bool {
    match days {
        Option::None => true,
        Option::Some(d) => match age_secs {
            Option::Some(a) => a > d * 86400,
            Option::None => false,
        },
    }
}

/// The entry's name matches the pattern set, under directory or file rules
/// according to its type.
pub open spec fn entry_matches(
    dirs: Seq<Seq<char>>,
    files: Seq<Seq<char>>,
    s: Seq<FsEntry>,
    i: int,
) -> bool {
    name_matches(dirs, files, s[i].name@, s[i].is_dir)
}

/// The walk prunes at entry `i`: a disposable directory that passes the
/// age filter.  Nothing below such an entry is visited.
pub open spec fn pruned_at(
    dirs: Seq<Seq<char>>,
    days: Option<u64>,
    s: Seq<FsEntry>,
    i: int,
) -> bool {
    &&& s[i].is_dir
    &&& dir_name_matches(dirs, s[i].name@)
    &&& age_eligible(days, s[i].age_secs)
}

/// Some proper ancestor of entry `i` is pruned, so the walk never
/// reaches `i`.
pub open spec fn shadowed(
    dirs: Seq<Seq<char>>,
    days: Option<u64>,
    s: Seq<FsEntry>,
    i: int,
) -> bool
    decreases i,
{
    if 0 < i < s.len() && (s[i].parent as int) < i {
        pruned_at(dirs, days, s, s[i].parent as int) || shadowed(dirs, days, s, s[i].parent as int)
    } else {
        false
    }
}

/// Entry `i` is reported by the scan: it is visited (no pruned ancestor),
/// its name matches, and it passes the age filter.
pub open spec fn reported(
    dirs: Seq<Seq<char>>,
    files: Seq<Seq<char>>,
    days: Option<u64>,
    s: Seq<FsEntry>,
    i: int,
) -> bool {
    &&& !shadowed(dirs, days, s, i)
    &&& entry_matches(dirs, files, s, i)
    &&& age_eligible(days, s[i].age_secs)
}

/// Entry `d` lies on the proper ancestor chain of entry `i`.
pub open spec fn descends_from(s: Seq<FsEntry>, i: int, d: int) -> bool
    decreases i,
{
    if 0 < i < s.len() && (s[i].parent as int) < i {
        s[i].parent as int == d || descends_from(s, s[i].parent as int, d)
    } else {
        false
    }
}

/// A match found by the scan: the entry's index, its type, and its size.
/// A directory's size is a placeholder resolved at deletion time; a
/// file's size comes from the walk's metadata.
#[derive(Debug, Clone, Copy, PartialEq, Eq, Structural)]
pub struct ScanResult {
    pub node: usize,
    pub is_dir: bool,
    pub size: u64,
}

/// The match reported for entry `i`.
pub open spec fn result_of(s: Seq<FsEntry>, i: int) -> ScanResult {
    ScanResult {
        node: i as usize,
        is_dir: s[i].is_dir,
        size: if s[i].is_dir {
            0
        } else {
            s[i].size
        },
    }
}

/// The matches reported among the first `n` entries, in entry order.
pub open spec fn scan_seq(
    dirs: Seq<Seq<char>>,
    files: Seq<Seq<char>>,
    days: Option<u64>,
    s: Seq<FsEntry>,
    n: int,
) -> Seq<ScanResult>
    decreases n,
{
    if n <= 0 {
        Seq::empty()
    } else {
        scan_seq(dirs, files, days, s, n - 1) + (if reported(dirs, files, days, s, n - 1) {
            seq![result_of(s, n - 1)]
        } else {
            Seq::empty()
        })
    }
}

/// How many of the first `n` entries the walk visits (is not shadowed).
pub open spec fn visited_count(
    dirs: Seq<Seq<char>>,
    days: Option<u64>,
    s: Seq<FsEntry>,
    n: int,
) -> int
    decreases n,
{
    if n <= 0 {
        0
    } else {
        visited_count(dirs, days, s, n - 1) + (if shadowed(dirs, days, s, n - 1) {
            0int
        } else {
            1int
        })
    }
}

/// Decides what a walk reports.  Holds the resolved pattern set, the
/// optional retention threshold, and the worker count the caller should
/// use for the walk; what is reported does not depend on the worker
/// count.
pub struct Scanner {
    pub matcher: PatternMatcher,
    pub days: Option<u64>,
    pub num_threads: usize,
}

impl Scanner {
    /// A scanner over a resolved configuration.
    pub fn new(num_threads: usize, config: &Config) -> (r: Scanner)
        ensures
            r.matcher.dirs.deep_view() == config.directories.deep_view(),
            r.matcher.files.deep_view() == config.files.deep_view(),
            r.days == config.days,
            r.num_threads == num_threads,
    {
        Scanner { matcher: PatternMatcher::from_config(config), days: config.days, num_threads }
    }

    /// The age filter for one entry.
    fn age_ok(&self, age_secs: &Option<u64>) -> (r: bool)
        ensures
            r == age_eligible(self.days, *age_secs),
    {
        match self.days {
            Option::None => true,
            Option::Some(d) => match age_secs {
                Option::Some(a) => (*a as u128) > (d as u128) * 86400,
                Option::None => false,
            },
        }
    }

    /// Scan a recorded walk: report every disposable entry that passes the
    /// age filter and is not inside a pruned directory, in entry order,
    /// together with the number of entries visited.
    pub fn scan(&self, fs: &FsSnapshot) -> (r: (Vec<ScanResult>, usize))
        requires
            fs.wf(),
        ensures
            r.0@ == scan_seq(
                self.matcher.dirs.deep_view(),
                self.matcher.files.deep_view(),
                self.days,
                fs.entries@,
                fs.entries@.len() as int,
            ),
            r.1 == visited_count(
                self.matcher.dirs.deep_view(),
                self.days,
                fs.entries@,
                fs.entries@.len() as int,
            ),
    {
        let ghost dirs = self.matcher.dirs.deep_view();
        let ghost files = self.matcher.files.deep_view();
        let ghost s = fs.entries@;
        let n = fs.entries.len();
        let mut results: Vec<ScanResult> = Vec::new();
        let mut scanned: usize = 0;
        let mut prune_flags: Vec<bool> = Vec::new();
        let mut shadow_flags: Vec<bool> = Vec::new();
        let mut i: usize = 0;
        while i < n
            invariant
                snap_wf(s),
                s == fs.entries@,
                n == s.len(),
                dirs == self.matcher.dirs.deep_view(),
                files == self.matcher.files.deep_view(),
                i <= n,
                prune_flags@.len() == i,
                shadow_flags@.len() == i,
                forall|j: int| 0 <= j < i ==> prune_flags@[j] == pruned_at(dirs, self.days, s, j),
                forall|j: int| 0 <= j < i ==> shadow_flags@[j] == shadowed(dirs, self.days, s, j),
                results@ == scan_seq(dirs, files, self.days, s, i as int),
                scanned == visited_count(dirs, self.days, s, i as int),
                scanned <= i,
            decreases n - i,
        {
            let e = &fs.entries[i];
            let dir_match = if e.is_dir {
                self.matcher.is_temp_directory(e.name.as_str())
            } else {
                false
            };
            let elig = self.age_ok(&e.age_secs);
            let prune_here = e.is_dir && dir_match && elig;
            let shadow_here = if i == 0 {
                false
            } else {
                prune_flags[e.parent] || shadow_flags[e.parent]
            };
            proof {
                assert(prune_here == pruned_at(dirs, self.days, s, i as int));
                assert(shadow_here == shadowed(dirs, self.days, s, i as int));
            }
            if !shadow_here {
                scanned += 1;
                let name_match = if e.is_dir {
                    dir_match
                } else {
                    self.matcher.is_temp_file(e.name.as_str())
                };
                if name_match && elig {
                    let size = if e.is_dir {
                        0
                    } else {
                        e.size
                    };
                    results.push(ScanResult { node: i, is_dir: e.is_dir, size });
                }
            }
            prune_flags.push(prune_here);
            shadow_flags.push(shadow_here);
            proof {
                assert(results@ =~= scan_seq(dirs, files, self.days, s, i + 1));
            }
            i += 1;
        }
        (results, scanned)
    }
}

/// Pruning: a disposable directory `d`, eligible under the age rules and
/// itself visited, is reported, and none of its descendants — however
/// deep — is visited or reported.
pub proof fn lemma_pruning(
    dirs: Seq<Seq<char>>,
    files: Seq<Seq<char>>,
    days: Option<u64>,
    s: Seq<FsEntry>,
    d: int,
    i: int,
)
    requires
        snap_wf(s),
        0 <= d < s.len(),
        pruned_at(dirs, days, s, d),
        !shadowed(dirs, days, s, d),
        descends_from(s, i, d),
    ensures
        reported(dirs, files, days, s, d),
        shadowed(dirs, days, s, i),
        !reported(dirs, files, days, s, i),
    decreases i,
{
    let p = s[i].parent as int;
    if p == d {
    } else {
        lemma_pruning(dirs, files, days, s, d, p);
    }
}

/// Age boundary: a disposable directory that is too recent is not
/// reported, and its children are visited just as an ordinary
/// directory's children would be.
pub proof fn lemma_age_boundary(
    dirs: Seq<Seq<char>>,
    files: Seq<Seq<char>>,
    days: Option<u64>,
    s: Seq<FsEntry>,
    d: int,
)
    requires
        snap_wf(s),
        0 <= d < s.len(),
        s[d].is_dir,
        dir_name_matches(dirs, s[d].name@),
        !age_eligible(days, s[d].age_secs),
        !shadowed(dirs, days, s, d),
    ensures
        !reported(dirs, files, days, s, d),
        forall|i: int|
            0 < i < s.len() && (#[trigger] s[i].parent) as int == d ==> !shadowed(
                dirs,
                days,
                s,
                i,
            ),
{
}

/// Every shadowed entry lies below some reported directory: the outermost
/// pruned ancestor is itself visited and reported.
proof fn lemma_shadowed_has_reported_ancestor(
    dirs: Seq<Seq<char>>,
    files: Seq<Seq<char>>,
    days: Option<u64>,
    s: Seq<FsEntry>,
    i: int,
)
    requires
        snap_wf(s),
        0 <= i < s.len(),
        shadowed(dirs, days, s, i),
    ensures
        exists|a: int|
            descends_from(s, i, a) && #[trigger] reported(dirs, files, days, s, a),
    decreases i,
{
    let p = s[i].parent as int;
    if pruned_at(dirs, days, s, p) && !shadowed(dirs, days, s, p) {
        assert(descends_from(s, i, p));
        assert(reported(dirs, files, days, s, p));
    } else if pruned_at(dirs, days, s, p) {
        lemma_shadowed_has_reported_ancestor(dirs, files, days, s, p);
        let a = choose|a: int|
            descends_from(s, p, a) && #[trigger] reported(dirs, files, days, s, a);
        assert(descends_from(s, i, a));
    } else {
        lemma_shadowed_has_reported_ancestor(dirs, files, days, s, p);
        let a = choose|a: int|
            descends_from(s, p, a) && #[trigger] reported(dirs, files, days, s, a);
        assert(descends_from(s, i, a));
    }
}

/// A tree in which no entry both matches the pattern set and passes the
/// age filter scans to no matches at all.  Together with
/// `lemma_second_pass_clean` this closes the rescan argument: every
/// entry surviving a clean live run has that property, so a second scan
/// reports nothing.
pub proof fn lemma_clean_tree_scans_empty(
    dirs: Seq<Seq<char>>,
    files: Seq<Seq<char>>,
    days: Option<u64>,
    s: Seq<FsEntry>,
    n: int,
)
    requires
        forall|i: int|
            0 <= i < s.len() ==> !(entry_matches(dirs, files, s, i) && age_eligible(
                days,
                s[i].age_secs,
            )),
        0 <= n <= s.len(),
    ensures
        scan_seq(dirs, files, days, s, n) == Seq::<ScanResult>::empty(),
    decreases n,
{
    if n > 0 {
        lemma_clean_tree_scans_empty(dirs, files, days, s, n - 1);
        assert(!reported(dirs, files, days, s, n - 1));
        assert(scan_seq(dirs, files, days, s, n) =~= Seq::<ScanResult>::empty());
    }
}

/// After a live run removes everything reported, a rescan of what is left
/// finds no matches: an entry that survived (it was not reported, and no
/// ancestor of it was reported) cannot match the pattern set and pass the
/// age filter, the ages being those of the first pass.
pub proof fn lemma_second_pass_clean(
    dirs: Seq<Seq<char>>,
    files: Seq<Seq<char>>,
    days: Option<u64>,
    s: Seq<FsEntry>,
    i: int,
)
    requires
        snap_wf(s),
        0 <= i < s.len(),
        !reported(dirs, files, days, s, i),
        forall|a: int| descends_from(s, i, a) ==> !reported(dirs, files, days, s, a),
    ensures
        !(entry_matches(dirs, files, s, i) && age_eligible(days, s[i].age_secs)),
{
    if entry_matches(dirs, files, s, i) && age_eligible(days, s[i].age_secs) {
        assert(shadowed(dirs, days, s, i));
        lemma_shadowed_has_reported_ancestor(dirs, files, days, s, i);
    }
}

} // verus!
