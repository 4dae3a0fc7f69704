//! Deletion accounting: consume a match stream in fixed-size batches and
//! maintain the run statistics.
//!
//! The caller owns the filesystem work: for each match it resolves the
//! size (a directory's recursive content size, a file's own size), in a
//! live run attempts the removal, and hands back one `DeleteRecord` per
//! item.  This module decides what each outcome contributes to the
//! statistics.  The accounting policy for a deleted directory is
//! size-only: the directory counts as one deleted directory and its
//! resolved content size as freed bytes; nested files are not counted
//! individually.  The same policy applies in dry and live runs.

use vstd::prelude::*;
use vstd::seq_lib::group_to_multiset_ensures;
use crate::scanner::{FsEntry, FsSnapshot, ScanResult, descends_from};
use crate::stats::Stats;

verus! {

/// One consumed match with its resolved size and, for live runs, whether
/// the removal failed.  Dry runs never fail: nothing is attempted.
#[derive(Debug, Clone, Copy, PartialEq, Eq, Structural)]
pub struct DeleteRecord {
    pub is_dir: bool,
    pub size: u64,
    pub failed: bool,
}

/// The item counts towards the deletion totals: in a dry run every item
/// does, in a live run those whose removal succeeded.
pub open spec fn item_succeeds(dry_run: bool, it: DeleteRecord) -> bool {
    dry_run || !it.failed
}

/// Sum of a per-item weight over a sequence of records.
pub open spec fn wsum(items: Seq<DeleteRecord>, w: spec_fn(DeleteRecord) -> int) -> int
    decreases items.len(),
{
    if items.len() == 0 {
        0
    } else {
        wsum(items.drop_last(), w) + w(items.last())
    }
}

/// Weight of an item in the deleted-directories total.
pub open spec fn w_dirs(dry_run: bool) -> spec_fn(DeleteRecord) -> int {
    |it: DeleteRecord|
        if item_succeeds(dry_run, it) && it.is_dir {
            1int
        } else {
            0int
        }
}

/// Weight of an item in the deleted-files total.
pub open spec fn w_files(dry_run: bool) -> spec_fn(DeleteRecord) -> int {
    |it: DeleteRecord|
        if item_succeeds(dry_run, it) && !it.is_dir {
            1int
        } else {
            0int
        }
}

/// Weight of an item in the bytes-freed total.
pub open spec fn w_bytes(dry_run: bool) -> spec_fn(DeleteRecord) -> int {
    |it: DeleteRecord|
        if item_succeeds(dry_run, it) {
            it.size as int
        } else {
            0int
        }
}

/// Weight of an item in the error total.
pub open spec fn w_errors(dry_run: bool) -> spec_fn(DeleteRecord) -> int {
    |it: DeleteRecord|
        if item_succeeds(dry_run, it) {
            0int
        } else {
            1int
        }
}

/// Clamp an integer into `u64`.
pub open spec fn clamp64(x: int) -> u64 {
    if x > u64::MAX {
        u64::MAX
    } else if x < 0 {
        0u64
    } else {
        x as u64
    }
}

/// Clamp an integer into `usize`.
pub open spec fn clamp_usize(x: int) -> usize {
    if x > usize::MAX {
        usize::MAX
    } else if x < 0 {
        0usize
    } else {
        x as usize
    }
}

/// A nonnegative weight gives a nonnegative sum.
pub proof fn lemma_wsum_nonneg(items: Seq<DeleteRecord>, w: spec_fn(DeleteRecord) -> int)
    requires
        forall|it: DeleteRecord| #[trigger] w(it) >= 0,
    ensures
        wsum(items, w) >= 0,
    decreases items.len(),
{
    if items.len() > 0 {
        lemma_wsum_nonneg(items.drop_last(), w);
    }
}

/// Removing one item removes its weight from the sum.
proof fn lemma_wsum_remove(items: Seq<DeleteRecord>, w: spec_fn(DeleteRecord) -> int, j: int)
    requires
        0 <= j < items.len(),
    ensures
        wsum(items.remove(j), w) == wsum(items, w) - w(items[j]),
    decreases items.len(),
{
    if j == items.len() - 1 {
        assert(items.remove(j) =~= items.drop_last());
    } else {
        assert(items.remove(j).drop_last() =~= items.drop_last().remove(j));
        assert(items.remove(j).last() == items.last());
        lemma_wsum_remove(items.drop_last(), w, j);
    }
}

/// Sums of a weight are invariant under reordering: two sequences holding
/// the same records in any order have the same sum.
pub proof fn lemma_wsum_permutation(
    items1: Seq<DeleteRecord>,
    items2: Seq<DeleteRecord>,
    w: spec_fn(DeleteRecord) -> int,
)
    requires
        items1.to_multiset() == items2.to_multiset(),
    ensures
        wsum(items1, w) == wsum(items2, w),
    decreases items1.len(),
{
    broadcast use group_to_multiset_ensures;

    if items1.len() == 0 {
        assert(items2.to_multiset().len() == 0);
    } else {
        let x = items1.last();
        assert(items1.contains(x));
        assert(items1.to_multiset().count(x) > 0);
        assert(items2.contains(x));
        let j = choose|j: int| 0 <= j < items2.len() && items2[j] == x;
        assert(items1.remove(items1.len() - 1) =~= items1.drop_last());
        assert(items1.drop_last().to_multiset() == items1.to_multiset().remove(x));
        assert(items2.remove(j).to_multiset() == items2.to_multiset().remove(x));
        lemma_wsum_permutation(items1.drop_last(), items2.remove(j), w);
        lemma_wsum_remove(items2, w, j);
    }
}

/// Pointwise equal weights give equal sums.
pub proof fn lemma_wsum_congruence(
    items: Seq<DeleteRecord>,
    w1: spec_fn(DeleteRecord) -> int,
    w2: spec_fn(DeleteRecord) -> int,
)
    requires
        forall|i: int| 0 <= i < items.len() ==> #[trigger] w1(items[i]) == w2(items[i]),
    ensures
        wsum(items, w1) == wsum(items, w2),
    decreases items.len(),
{
    if items.len() > 0 {
        assert(forall|i: int|
            0 <= i < items.drop_last().len() ==> #[trigger] w1(items.drop_last()[i]) == w2(
                items.drop_last()[i],
            ));
        lemma_wsum_congruence(items.drop_last(), w1, w2);
        assert(items.last() == items[items.len() - 1]);
    }
}

/// Concurrency safety: the four statistics totals do not depend on the
/// order in which parallel workers consumed the match stream — any two
/// consumption orders of the same records give the same totals.
pub proof fn lemma_stats_order_independent(
    items1: Seq<DeleteRecord>,
    items2: Seq<DeleteRecord>,
    dry_run: bool,
)
    requires
        items1.to_multiset() == items2.to_multiset(),
    ensures
        wsum(items1, w_dirs(dry_run)) == wsum(items2, w_dirs(dry_run)),
        wsum(items1, w_files(dry_run)) == wsum(items2, w_files(dry_run)),
        wsum(items1, w_bytes(dry_run)) == wsum(items2, w_bytes(dry_run)),
        wsum(items1, w_errors(dry_run)) == wsum(items2, w_errors(dry_run)),
{
    lemma_wsum_permutation(items1, items2, w_dirs(dry_run));
    lemma_wsum_permutation(items1, items2, w_files(dry_run));
    lemma_wsum_permutation(items1, items2, w_bytes(dry_run));
    lemma_wsum_permutation(items1, items2, w_errors(dry_run));
}

/// A dry run reports the same totals as a live run in which every removal
/// succeeded, over the same records.
pub proof fn lemma_dry_matches_live(items: Seq<DeleteRecord>)
    requires
        forall|i: int| 0 <= i < items.len() ==> !(#[trigger] items[i]).failed,
    ensures
        wsum(items, w_dirs(true)) == wsum(items, w_dirs(false)),
        wsum(items, w_files(true)) == wsum(items, w_files(false)),
        wsum(items, w_bytes(true)) == wsum(items, w_bytes(false)),
        wsum(items, w_errors(true)) == wsum(items, w_errors(false)),
{
    lemma_wsum_congruence(items, w_dirs(true), w_dirs(false));
    lemma_wsum_congruence(items, w_files(true), w_files(false));
    lemma_wsum_congruence(items, w_bytes(true), w_bytes(false));
    lemma_wsum_congruence(items, w_errors(true), w_errors(false));
}

/// Consumes resolved match records in fixed-size batches and accumulates
/// the run statistics; supports dry-run and verbose modes.  The verbose
/// printing itself is the caller's, driven by the resolved sizes.
pub struct Deleter {
    pub stats: Stats,
    pub dry_run: bool,
    pub verbose: bool,
}

/// How many items one batch holds.
pub const BATCH_SIZE: usize = 64;

impl Deleter {
    /// A deleter holding fresh statistics.
    pub fn new(stats: Stats, dry_run: bool, verbose: bool) -> (r: Deleter)
        ensures
            r.stats == stats,
            r.dry_run == dry_run,
            r.verbose == verbose,
    {
        Deleter { stats, dry_run, verbose }
    }

    /// Account for one consumed item: a success (or any item of a dry
    /// run) counts its type and its resolved size; a failed removal
    /// counts one error and nothing else.
    pub fn delete_item(&mut self, item: &DeleteRecord)
        ensures
            final(self).dry_run == old(self).dry_run,
            final(self).verbose == old(self).verbose,
            final(self).stats.directories_deleted == clamp_usize(
                old(self).stats.directories_deleted + w_dirs(old(self).dry_run)(*item),
            ),
            final(self).stats.files_deleted == clamp_usize(
                old(self).stats.files_deleted + w_files(old(self).dry_run)(*item),
            ),
            final(self).stats.bytes_freed == clamp64(
                old(self).stats.bytes_freed + w_bytes(old(self).dry_run)(*item),
            ),
            final(self).stats.errors == clamp_usize(
                old(self).stats.errors + w_errors(old(self).dry_run)(*item),
            ),
    {
        if self.dry_run || !item.failed {
            if item.is_dir {
                self.stats.add_directory();
            } else {
                self.stats.add_file();
            }
            self.stats.add_bytes(item.size);
        } else {
            self.stats.add_error();
        }
    }

    /// Account for the batch `items[start..end]`, item by item.
    pub fn process_batch(&mut self, items: &Vec<DeleteRecord>, start: usize, end: usize)
        requires
            start <= end <= items@.len(),
        ensures
            final(self).dry_run == old(self).dry_run,
            final(self).verbose == old(self).verbose,
            final(self).stats.directories_deleted == clamp_usize(
                old(self).stats.directories_deleted + wsum(
                    items@.subrange(start as int, end as int),
                    w_dirs(old(self).dry_run),
                ),
            ),
            final(self).stats.files_deleted == clamp_usize(
                old(self).stats.files_deleted + wsum(
                    items@.subrange(start as int, end as int),
                    w_files(old(self).dry_run),
                ),
            ),
            final(self).stats.bytes_freed == clamp64(
                old(self).stats.bytes_freed + wsum(
                    items@.subrange(start as int, end as int),
                    w_bytes(old(self).dry_run),
                ),
            ),
            final(self).stats.errors == clamp_usize(
                old(self).stats.errors + wsum(
                    items@.subrange(start as int, end as int),
                    w_errors(old(self).dry_run),
                ),
            ),
    {
        let ghost init = self.stats;
        let ghost dry = self.dry_run;
        let mut k = start;
        while k < end
            invariant
                start <= k <= end <= items@.len(),
                self.dry_run == dry,
                self.verbose == old(self).verbose,
                self.stats.directories_deleted == clamp_usize(
                    init.directories_deleted + wsum(
                        items@.subrange(start as int, k as int),
                        w_dirs(dry),
                    ),
                ),
                self.stats.files_deleted == clamp_usize(
                    init.files_deleted + wsum(items@.subrange(start as int, k as int), w_files(dry)),
                ),
                self.stats.bytes_freed == clamp64(
                    init.bytes_freed + wsum(items@.subrange(start as int, k as int), w_bytes(dry)),
                ),
                self.stats.errors == clamp_usize(
                    init.errors + wsum(items@.subrange(start as int, k as int), w_errors(dry)),
                ),
            decreases end - k,
        {
            let ghost pre = items@.subrange(start as int, k as int);
            let ghost post = items@.subrange(start as int, k + 1);
            proof {
                assert(post.drop_last() =~= pre);
                assert(post.last() == items@[k as int]);
                lemma_wsum_nonneg(pre, w_dirs(dry));
                lemma_wsum_nonneg(pre, w_files(dry));
                lemma_wsum_nonneg(pre, w_bytes(dry));
                lemma_wsum_nonneg(pre, w_errors(dry));
            }
            let item = items[k];
            self.delete_item(&item);
            k += 1;
        }
    }

    /// Consume a whole match stream: process items in batches of
    /// `BATCH_SIZE`, then the remainder.  Batching only groups the work;
    /// the resulting statistics are those of processing every item once.
    pub fn process(&mut self, items: &Vec<DeleteRecord>)
        ensures
            final(self).dry_run == old(self).dry_run,
            final(self).verbose == old(self).verbose,
            final(self).stats.directories_deleted == clamp_usize(
                old(self).stats.directories_deleted + wsum(items@, w_dirs(old(self).dry_run)),
            ),
            final(self).stats.files_deleted == clamp_usize(
                old(self).stats.files_deleted + wsum(items@, w_files(old(self).dry_run)),
            ),
            final(self).stats.bytes_freed == clamp64(
                old(self).stats.bytes_freed + wsum(items@, w_bytes(old(self).dry_run)),
            ),
            final(self).stats.errors == clamp_usize(
                old(self).stats.errors + wsum(items@, w_errors(old(self).dry_run)),
            ),
    {
        let ghost init = self.stats;
        let ghost dry = self.dry_run;
        let n = items.len();
        let mut pos: usize = 0;
        while pos < n
            invariant
                pos <= n,
                n == items@.len(),
                self.dry_run == dry,
                self.verbose == old(self).verbose,
                self.stats.directories_deleted == clamp_usize(
                    init.directories_deleted + wsum(items@.subrange(0, pos as int), w_dirs(dry)),
                ),
                self.stats.files_deleted == clamp_usize(
                    init.files_deleted + wsum(items@.subrange(0, pos as int), w_files(dry)),
                ),
                self.stats.bytes_freed == clamp64(
                    init.bytes_freed + wsum(items@.subrange(0, pos as int), w_bytes(dry)),
                ),
                self.stats.errors == clamp_usize(
                    init.errors + wsum(items@.subrange(0, pos as int), w_errors(dry)),
                ),
            decreases n - pos,
        {
            let end = if n - pos < BATCH_SIZE {
                n
            } else {
                pos + BATCH_SIZE
            };
            let ghost pre = items@.subrange(0, pos as int);
            let ghost mid = items@.subrange(pos as int, end as int);
            self.process_batch(items, pos, end);
            proof {
                lemma_wsum_concat(pre, mid, w_dirs(dry));
                lemma_wsum_concat(pre, mid, w_files(dry));
                lemma_wsum_concat(pre, mid, w_bytes(dry));
                lemma_wsum_concat(pre, mid, w_errors(dry));
                assert(pre + mid =~= items@.subrange(0, end as int));
                lemma_wsum_nonneg(pre, w_dirs(dry));
                lemma_wsum_nonneg(mid, w_dirs(dry));
                lemma_wsum_nonneg(pre, w_files(dry));
                lemma_wsum_nonneg(mid, w_files(dry));
                lemma_wsum_nonneg(pre, w_bytes(dry));
                lemma_wsum_nonneg(mid, w_bytes(dry));
                lemma_wsum_nonneg(pre, w_errors(dry));
                lemma_wsum_nonneg(mid, w_errors(dry));
            }
            pos = end;
        }
        proof {
            assert(items@.subrange(0, n as int) =~= items@);
        }
    }
}

/// Splitting a sequence splits its weighted sum.
pub proof fn lemma_wsum_concat(
    a: Seq<DeleteRecord>,
    b: Seq<DeleteRecord>,
    w: spec_fn(DeleteRecord) -> int,
)
    ensures
        wsum(a + b, w) == wsum(a, w) + wsum(b, w),
    decreases b.len(),
{
    if b.len() == 0 {
        assert(a + b =~= a);
    } else {
        assert((a + b).drop_last() =~= a + b.drop_last());
        assert((a + b).last() == b.last());
        lemma_wsum_concat(a, b.drop_last(), w);
    }
}

/// Sum of the file sizes in the subtree rooted at entry `node` (the
/// entry itself included when it is a file).
pub open spec fn subtree_file_bytes(s: Seq<FsEntry>, node: int) -> int {
    wsum_entries(s, node, s.len() as int)
}

/// Sum over the first `n` entries of the sizes of files lying at or below
/// `node`.
pub open spec fn wsum_entries(s: Seq<FsEntry>, node: int, n: int) -> int
    decreases n,
{
    if n <= 0 {
        0
    } else {
        wsum_entries(s, node, n - 1) + (if !s[n - 1].is_dir && (n - 1 == node || descends_from(
            s,
            n - 1,
            node,
        )) {
            s[n - 1].size as int
        } else {
            0int
        })
    }
}

/// Is entry `j` at or below entry `node`?  Walks the parent chain.
fn in_subtree(fs: &FsSnapshot, j: usize, node: usize) -> (r: bool)
    requires
        fs.wf(),
        j < fs.entries@.len(),
        node < fs.entries@.len(),
    ensures
        r == (j == node || descends_from(fs.entries@, j as int, node as int)),
{
    let mut cur = j;
    loop
        invariant
            fs.wf(),
            cur < fs.entries@.len(),
            node < fs.entries@.len(),
            (j == node || descends_from(fs.entries@, j as int, node as int)) == (cur == node
                || descends_from(fs.entries@, cur as int, node as int)),
        decreases cur,
    {
        if cur == node {
            return true;
        }
        if cur == 0 {
            return false;
        }
        cur = fs.entries[cur].parent;
    }
}

/// Resolve a directory match's size from the recorded walk: the sum of
/// the file sizes in its subtree, saturating at `u64::MAX`.  The model
/// counterpart of resolving a directory's size by a read-only walk at
/// deletion time.
pub fn dir_size_fast(fs: &FsSnapshot, node: usize) -> (r: u64)
    requires
        fs.wf(),
        node < fs.entries@.len(),
    ensures
        r == clamp64(subtree_file_bytes(fs.entries@, node as int)),
{
    let ghost s = fs.entries@;
    let n = fs.entries.len();
    let mut total: u64 = 0;
    let mut j: usize = 0;
    while j < n
        invariant
            fs.wf(),
            s == fs.entries@,
            n == s.len(),
            node < n,
            j <= n,
            total == clamp64(wsum_entries(s, node as int, j as int)),
        decreases n - j,
    {
        let e = &fs.entries[j];
        proof {
            lemma_wsum_entries_nonneg(s, node as int, j as int);
        }
        if !e.is_dir && in_subtree(fs, j, node) {
            if e.size <= u64::MAX - total {
                total = total + e.size;
            } else {
                total = u64::MAX;
            }
        }
        j += 1;
    }
    total
}

proof fn lemma_wsum_entries_nonneg(s: Seq<FsEntry>, node: int, n: int)
    ensures
        wsum_entries(s, node, n) >= 0,
    decreases n,
{
    if n > 0 {
        lemma_wsum_entries_nonneg(s, node, n - 1);
    }
}

/// What resolving one match against the recorded walk yields.
pub open spec fn resolved_record(s: Seq<FsEntry>, res: ScanResult) -> DeleteRecord {
    DeleteRecord {
        is_dir: res.is_dir,
        size: if res.is_dir {
            clamp64(subtree_file_bytes(s, res.node as int))
        } else {
            res.size
        },
        failed: false,
    }
}

/// Resolve a whole match list against the recorded walk: directory sizes
/// from their subtree sums, file sizes as reported, no failures (nothing
/// was attempted).  Feeds a model run of the deleter, as in a dry run.
pub fn resolve_results(fs: &FsSnapshot, results: &Vec<ScanResult>) -> (r: Vec<DeleteRecord>)
    requires
        fs.wf(),
        forall|i: int| 0 <= i < results@.len() ==> (#[trigger] results@[i]).node < fs.entries@.len(),
    ensures
        r@.len() == results@.len(),
        forall|i: int|
            0 <= i < results@.len() ==> (#[trigger] r@[i]) == resolved_record(
                fs.entries@,
                results@[i],
            ),
{
    let mut r: Vec<DeleteRecord> = Vec::new();
    let n = results.len();
    let mut i: usize = 0;
    while i < n
        invariant
            fs.wf(),
            n == results@.len(),
            i <= n,
            r@.len() == i,
            forall|k: int| 0 <= k < n ==> (#[trigger] results@[k]).node < fs.entries@.len(),
            forall|k: int|
                0 <= k < i ==> (#[trigger] r@[k]) == resolved_record(fs.entries@, results@[k]),
        decreases n - i,
    {
        let item = results[i];
        let size = if item.is_dir {
            dir_size_fast(fs, item.node)
        } else {
            item.size
        };
        r.push(DeleteRecord { is_dir: item.is_dir, size, failed: false });
        i += 1;
    }
    r
}

} // verus!
