//! The in-memory directory tree behind the interactive browser: a
//! parent-indexed arena of nodes, each directory annotated with the sum
//! of the file sizes below it.
//!
//! One pass over a recorded walk builds the whole index; file sizes are
//! added to every ancestor's running total during that same pass, so no
//! second aggregation pass is needed.  Browsing reads children lists
//! without touching the filesystem, and deleting a single entry patches
//! the tree in one walk up the ancestor chain instead of rescanning.
//!
//! Nodes are numbered in discovery order, parents before children: the
//! root is node 0, and the node for walk entry `i` is `i + 1`.  A path
//! is represented by its node number.

use vstd::prelude::*;
use vstd::string::*;
use vstd::multiset::Multiset;
use crate::patterns::{PatternMatcher, name_matches};
use crate::stats::{sat_add64, sat_add_usize};
use crate::text::{lex_le, lemma_lex_le_total, lemma_lex_le_trans, lower_of, lowercase, str_eq,
    str_lex_le};

verus! {

/// One row of a directory listing: the entry's node number, name,
/// aggregate size, type, and whether it matches the disposable set.
#[derive(Debug, Clone)]
pub struct DirEntry {
    pub node: usize,
    pub name: String,
    pub size: u64,
    pub is_dir: bool,
    pub is_temp: bool,
}

/// One node of the tree.  `parent` is the parent's node number (the root
/// is its own parent); `children` lists child node numbers in discovery
/// order; `size` is a file's own size or a directory's aggregate size.
#[derive(Debug, Clone)]
pub struct TreeNode {
    pub name: String,
    pub parent: usize,
    pub is_dir: bool,
    pub is_temp: bool,
    pub size: u64,
    pub children: Vec<usize>,
}

/// The size-annotated directory tree.
#[derive(Debug, Clone)]
pub struct DirTree {
    pub nodes: Vec<TreeNode>,
}

/// One entry of a recorded walk, in discovery order: the parent's node
/// number (which is 0 for the root, or one more than the parent entry's
/// position), the entry's name, its size (files only) and its type.
#[derive(Debug, Clone)]
pub struct RawEntry {
    pub parent: usize,
    pub name: String,
    pub size: u64,
    pub is_dir: bool,
}

/// Node `k`'s children entries are valid: each is a later node whose
/// parent pointer points back at `k`, none repeats, and only a directory
/// has any.
pub open spec fn children_ok(t: Seq<TreeNode>, k: int) -> bool {
    &&& forall|j: int|
        0 <= j < t[k].children@.len() ==> k < (#[trigger] t[k].children@[j]) < t.len()
            && t[t[k].children@[j] as int].parent == k
    &&& forall|j1: int, j2: int|
        0 <= j1 < j2 < t[k].children@.len() ==> t[k].children@[j1] != t[k].children@[j2]
    &&& (!t[k].is_dir ==> t[k].children@.len() == 0)
}

/// The arena is well-formed: the root is a directory and its own parent,
/// every other node's parent is an earlier directory node, and all
/// children lists are valid.
pub open spec fn nodes_wf(t: Seq<TreeNode>) -> bool {
    &&& t.len() >= 1
    &&& t[0].parent == 0
    &&& t[0].is_dir
    &&& forall|k: int|
        1 <= k < t.len() ==> (#[trigger] t[k].parent) < k && t[t[k].parent as int].is_dir
    &&& forall|k: int| 0 <= k < t.len() ==> #[trigger] children_ok(t, k)
}

/// Node `k` is still attached to the tree: every link of its ancestor
/// chain is present in the corresponding children list.
pub open spec fn reachable(t: Seq<TreeNode>, k: int) -> bool
    decreases k,
{
    if k == 0 {
        true
    } else if 0 < k < t.len() && (t[k].parent as int) < k {
        t[t[k].parent as int].children@.contains(k as usize) && reachable(t, t[k].parent as int)
    } else {
        false
    }
}

/// Sum of the recorded sizes of the nodes listed in `l`.
pub open spec fn list_size_sum(t: Seq<TreeNode>, l: Seq<usize>) -> int
    decreases l.len(),
{
    if l.len() == 0 {
        0
    } else {
        list_size_sum(t, l.drop_last()) + t[l.last() as int].size as int
    }
}

/// Sum of the recorded sizes of node `k`'s children.
pub open spec fn children_sum(t: Seq<TreeNode>, k: int) -> int {
    list_size_sum(t, t[k].children@)
}

/// The aggregation invariant: every attached directory's recorded size
/// equals the sum of its children's recorded sizes.
pub open spec fn aggregated(t: Seq<TreeNode>) -> bool {
    forall|k: int|
        0 <= k < t.len() && #[trigger] reachable(t, k) && t[k].is_dir ==> t[k].size as int
            == children_sum(t, k)
}

/// List sums are nonnegative.
pub proof fn lemma_list_sum_nonneg(t: Seq<TreeNode>, l: Seq<usize>)
    ensures
        list_size_sum(t, l) >= 0,
    decreases l.len(),
{
    if l.len() > 0 {
        lemma_list_sum_nonneg(t, l.drop_last());
    }
}

/// Removing one listed node removes its size from the list sum.
pub proof fn lemma_list_sum_remove(t: Seq<TreeNode>, l: Seq<usize>, j: int)
    requires
        0 <= j < l.len(),
    ensures
        list_size_sum(t, l.remove(j)) == list_size_sum(t, l) - t[l[j] as int].size,
    decreases l.len(),
{
    if j == l.len() - 1 {
        assert(l.remove(j) =~= l.drop_last());
    } else {
        assert(l.remove(j).drop_last() =~= l.drop_last().remove(j));
        assert(l.remove(j).last() == l.last());
        lemma_list_sum_remove(t, l.drop_last(), j);
    }
}

/// A listed node's size is at most the list sum.
pub proof fn lemma_list_sum_bounds_member(t: Seq<TreeNode>, l: Seq<usize>, j: int)
    requires
        0 <= j < l.len(),
    ensures
        t[l[j] as int].size as int <= list_size_sum(t, l),
    decreases l.len(),
{
    if j == l.len() - 1 {
        lemma_list_sum_nonneg(t, l.drop_last());
    } else {
        lemma_list_sum_bounds_member(t, l.drop_last(), j);
    }
}

/// Two arenas that give every listed node the same size give the list
/// the same sum.
pub proof fn lemma_list_sum_congruence(t1: Seq<TreeNode>, t2: Seq<TreeNode>, l: Seq<usize>)
    requires
        forall|j: int|
            0 <= j < l.len() ==> t1[(#[trigger] l[j]) as int].size == t2[l[j] as int].size,
    ensures
        list_size_sum(t1, l) == list_size_sum(t2, l),
    decreases l.len(),
{
    if l.len() > 0 {
        assert(forall|j: int|
            0 <= j < l.drop_last().len() ==> t1[(#[trigger] l.drop_last()[j]) as int].size
                == t2[l.drop_last()[j] as int].size);
        lemma_list_sum_congruence(t1, t2, l.drop_last());
        assert(l.last() == l[l.len() - 1]);
    }
}

/// Live counters exposed while a tree is being built: files, directories
/// and bytes seen, a coarse two-phase indicator, and completion.  An
/// external renderer polls these; only the builder writes them.
pub struct ScanProgress {
    pub files: usize,
    pub dirs: usize,
    pub bytes: u64,
    pub done: bool,
    pub phase: u8,
}

impl ScanProgress {
    /// Fresh counters, all zero, phase 0, not done.
    pub fn new() -> (r: ScanProgress)
        ensures
            r.files == 0,
            r.dirs == 0,
            r.bytes == 0,
            r.done == false,
            r.phase == 0,
    {
        ScanProgress { files: 0, dirs: 0, bytes: 0, done: false, phase: 0 }
    }

    /// Count one file and its bytes.
    pub fn add_file(&mut self, bytes: u64)
        ensures
            final(self).files == sat_add_usize(old(self).files, 1),
            final(self).bytes == sat_add64(old(self).bytes, bytes),
            final(self).dirs == old(self).dirs,
            final(self).done == old(self).done,
            final(self).phase == old(self).phase,
    {
        if self.files < usize::MAX {
            self.files = self.files + 1;
        }
        if bytes <= u64::MAX - self.bytes {
            self.bytes = self.bytes + bytes;
        } else {
            self.bytes = u64::MAX;
        }
    }

    /// Count one directory.
    pub fn add_dir(&mut self)
        ensures
            final(self).dirs == sat_add_usize(old(self).dirs, 1),
            final(self).files == old(self).files,
            final(self).bytes == old(self).bytes,
            final(self).done == old(self).done,
            final(self).phase == old(self).phase,
    {
        if self.dirs < usize::MAX {
            self.dirs = self.dirs + 1;
        }
    }

    /// Enter the grouping phase.
    pub fn set_phase(&mut self, phase: u8)
        ensures
            final(self).phase == phase,
            final(self).files == old(self).files,
            final(self).dirs == old(self).dirs,
            final(self).bytes == old(self).bytes,
            final(self).done == old(self).done,
    {
        self.phase = phase;
    }

    /// Mark the build finished.
    pub fn set_done(&mut self)
        ensures
            final(self).done == true,
            final(self).files == old(self).files,
            final(self).dirs == old(self).dirs,
            final(self).bytes == old(self).bytes,
            final(self).phase == old(self).phase,
    {
        self.done = true;
    }

    /// Files seen so far.
    pub fn get_files(&self) -> (r: usize)
        ensures
            r == self.files,
    {
        self.files
    }

    /// Directories seen so far.
    pub fn get_dirs(&self) -> (r: usize)
        ensures
            r == self.dirs,
    {
        self.dirs
    }

    /// Bytes seen so far.
    pub fn get_bytes(&self) -> (r: u64)
        ensures
            r == self.bytes,
    {
        self.bytes
    }

    /// Has the build finished?
    pub fn is_done(&self) -> (r: bool)
        ensures
            r == self.done,
    {
        self.done
    }

    /// The coarse phase indicator.
    pub fn get_phase(&self) -> (r: u8)
        ensures
            r == self.phase,
    {
        self.phase
    }
}

/// The parent pointers of an arena, as a sequence.
pub open spec fn parents_of(t: Seq<TreeNode>) -> Seq<usize> {
    Seq::new(t.len(), |k: int| t[k].parent)
}

/// The node numbers' parent pointers determined by a recorded walk:
/// entry `i` becomes node `i + 1`, and node 0 is the root.
pub open spec fn entry_parents(e: Seq<RawEntry>) -> Seq<usize> {
    Seq::new(e.len() + 1, |k: int| if k == 0 { 0usize } else { e[k - 1].parent })
}

/// Node `d` lies on the parent chain of node `x` (itself included).
pub open spec fn chain_reaches(ps: Seq<usize>, x: int, d: int) -> bool
    decreases x,
{
    if x == d {
        true
    } else if 0 < x < ps.len() && (ps[x] as int) < x {
        chain_reaches(ps, ps[x] as int, d)
    } else {
        false
    }
}

/// A chain only descends: whatever it reaches has a smaller or equal
/// node number.
pub proof fn lemma_chain_below(ps: Seq<usize>, x: int, d: int)
    requires
        chain_reaches(ps, x, d),
    ensures
        d <= x,
    decreases x,
{
    if x != d {
        lemma_chain_below(ps, ps[x] as int, d);
    }
}

/// Two parent sequences that agree up to `x` give `x` the same chain.
pub proof fn lemma_chain_agree(ps1: Seq<usize>, ps2: Seq<usize>, x: int, d: int)
    requires
        0 <= x < ps1.len(),
        0 <= x < ps2.len(),
        forall|k: int| 0 <= k <= x ==> ps1[k] == ps2[k],
    ensures
        chain_reaches(ps1, x, d) == chain_reaches(ps2, x, d),
    decreases x,
{
    if x != d && 0 < x && (ps1[x] as int) < x {
        lemma_chain_agree(ps1, ps2, ps1[x] as int, d);
    }
}

/// Chains compose: what `y`'s chain reaches, the chain of any `x`
/// passing through `y` also reaches.
pub proof fn lemma_chain_trans(ps: Seq<usize>, x: int, y: int, z: int)
    requires
        chain_reaches(ps, x, y),
        chain_reaches(ps, y, z),
    ensures
        chain_reaches(ps, x, z),
    decreases x,
{
    if x != y {
        lemma_chain_trans(ps, ps[x] as int, y, z);
    }
}

/// The walk entries are well-formed: every entry's parent is an earlier
/// node (or the root) and is a directory.
pub open spec fn entries_wf(e: Seq<RawEntry>) -> bool {
    forall|i: int|
        0 <= i < e.len() ==> (#[trigger] e[i].parent) <= i && (e[i].parent == 0 || e[e[i].parent
            - 1].is_dir)
}

/// Under well-formed entries every chain ends at the root.
pub proof fn lemma_chain_to_root(e: Seq<RawEntry>, x: int)
    requires
        entries_wf(e),
        0 <= x <= e.len(),
    ensures
        chain_reaches(entry_parents(e), x, 0),
    decreases x,
{
    if x > 0 {
        lemma_chain_to_root(e, entry_parents(e)[x] as int);
    }
}

/// Under well-formed entries, everything a directory node's chain
/// reaches is a directory node.
pub proof fn lemma_chain_dirs(e: Seq<RawEntry>, x: int, d: int)
    requires
        entries_wf(e),
        0 <= x <= e.len(),
        x == 0 || e[x - 1].is_dir,
        chain_reaches(entry_parents(e), x, d),
    ensures
        0 <= d <= x,
        d == 0 || e[d - 1].is_dir,
    decreases x,
{
    if x != d {
        lemma_chain_dirs(e, entry_parents(e)[x] as int, d);
    }
}

/// Sum of the sizes of the file entries among the first `n` whose node
/// lies at or below node `d`.
pub open spec fn files_under(e: Seq<RawEntry>, d: int, n: int) -> int
    decreases n,
{
    if n <= 0 {
        0
    } else {
        files_under(e, d, n - 1) + (if !e[n - 1].is_dir && chain_reaches(entry_parents(e), n, d) {
            e[n - 1].size as int
        } else {
            0int
        })
    }
}

/// The number of file entries among the first `n`.
pub open spec fn files_count(e: Seq<RawEntry>, n: int) -> int
    decreases n,
{
    if n <= 0 {
        0
    } else {
        files_count(e, n - 1) + (if e[n - 1].is_dir {
            0int
        } else {
            1int
        })
    }
}

/// The number of directory entries among the first `n`.
pub open spec fn dirs_count(e: Seq<RawEntry>, n: int) -> int
    decreases n,
{
    if n <= 0 {
        0
    } else {
        dirs_count(e, n - 1) + (if e[n - 1].is_dir {
            1int
        } else {
            0int
        })
    }
}

/// Subtree sums grow with the prefix length.
pub proof fn lemma_files_under_mono(e: Seq<RawEntry>, d: int, n1: int, n2: int)
    requires
        n1 <= n2,
    ensures
        files_under(e, d, n1) <= files_under(e, d, n2),
    decreases n2 - n1,
{
    if n1 < n2 {
        lemma_files_under_mono(e, d, n1, n2 - 1);
    }
}

/// Every subtree sum is at most the whole tree's sum.
pub proof fn lemma_files_under_le_root(e: Seq<RawEntry>, d: int, n: int)
    requires
        entries_wf(e),
        n <= e.len(),
    ensures
        files_under(e, d, n) <= files_under(e, 0, n),
    decreases n,
{
    if n > 0 {
        lemma_files_under_le_root(e, d, n - 1);
        if !e[n - 1].is_dir {
            lemma_chain_to_root(e, n);
        }
    }
}

/// A node that the first `n` entries lie strictly before has an empty
/// subtree among them.
pub proof fn lemma_files_under_of_new(e: Seq<RawEntry>, d: int, n: int)
    requires
        n < d,
    ensures
        files_under(e, d, n) == 0,
    decreases n,
{
    if n > 0 {
        lemma_files_under_of_new(e, d, n - 1);
        if chain_reaches(entry_parents(e), n, d) {
            lemma_chain_below(entry_parents(e), n, d);
        }
    }
}

/// Changing exactly one listed node's size by `delta` changes the list
/// sum by `delta`, provided the list holds that node only once.
pub proof fn lemma_list_sum_bump(
    t1: Seq<TreeNode>,
    t2: Seq<TreeNode>,
    l: Seq<usize>,
    x: usize,
    delta: int,
)
    requires
        l.contains(x),
        forall|j1: int, j2: int| 0 <= j1 < j2 < l.len() ==> l[j1] != l[j2],
        forall|j: int| 0 <= j < l.len() ==> ((#[trigger] l[j]) as int) < t1.len(),
        t1.len() == t2.len(),
        (x as int) < t1.len(),
        t2[x as int].size as int == t1[x as int].size + delta,
        forall|k: int| 0 <= k < t1.len() && k != x ==> t2[k].size == t1[k].size,
    ensures
        list_size_sum(t2, l) == list_size_sum(t1, l) + delta,
{
    let j = choose|j: int| 0 <= j < l.len() && l[j] == x;
    lemma_list_sum_remove(t1, l, j);
    lemma_list_sum_remove(t2, l, j);
    let lr = l.remove(j);
    assert(forall|p: int| 0 <= p < lr.len() ==> lr[p] != x) by {
        assert(forall|p: int| 0 <= p < l.len() && p != j ==> l[p] != x);
    }
    lemma_list_sum_congruence(t1, t2, lr);
}

/// Add `s` to the recorded size of `start` and of every ancestor up to
/// the root.  On entry the arena satisfies the aggregation invariant
/// everywhere except at `start`, whose size is short by exactly `s` (its
/// children list has just gained that much); on exit it holds
/// everywhere.  Nothing but the chain's sizes changes.
#[verifier::loop_isolation(false)]
fn bubble_size(nodes: &mut Vec<TreeNode>, start: usize, s: u64)
    requires
        old(nodes)@.len() >= 1,
        old(nodes)@[0].parent == 0,
        old(nodes)@[0].is_dir,
        forall|k: int| 1 <= k < old(nodes)@.len() ==> (#[trigger] old(nodes)@[k].parent) < k,
        forall|k: int| 0 <= k < old(nodes)@.len() ==> #[trigger] children_ok(old(nodes)@, k),
        forall|c: int|
            1 <= c < old(nodes)@.len() ==> #[trigger] old(nodes)@[old(nodes)@[c].parent as int].children@.contains(c as usize),
        start < old(nodes)@.len(),
        old(nodes)@[start as int].is_dir,
        forall|d: int|
            0 <= d < old(nodes)@.len() && chain_reaches(parents_of(old(nodes)@), start as int, d)
                ==> (#[trigger] old(nodes)@[d].size) + s <= u64::MAX,
        old(nodes)@[start as int].size + s == children_sum(old(nodes)@, start as int),
        forall|k: int|
            0 <= k < old(nodes)@.len() && k != start && old(nodes)@[k].is_dir
                ==> (#[trigger] old(nodes)@[k].size) as int == children_sum(old(nodes)@, k),
    ensures
        final(nodes)@.len() == old(nodes)@.len(),
        forall|k: int|
            0 <= k < old(nodes)@.len() ==> (#[trigger] final(nodes)@[k]).name == old(nodes)@[k].name && final(nodes)@[k].parent == old(nodes)@[k].parent && final(nodes)@[k].is_dir == old(nodes)@[k].is_dir && final(nodes)@[k].is_temp == old(nodes)@[k].is_temp && final(nodes)@[k].children == old(nodes)@[k].children,
        forall|k: int|
            0 <= k < old(nodes)@.len() ==> (#[trigger] final(nodes)@[k]).size as int == old(nodes)@[k].size + (if chain_reaches(parents_of(old(nodes)@), start as int, k) {
                s as int
            } else {
                0int
            }),
        forall|k: int|
            0 <= k < old(nodes)@.len() && final(nodes)@[k].is_dir
                ==> (#[trigger] final(nodes)@[k].size) as int == children_sum(final(nodes)@, k),
{
    let ghost t0 = old(nodes)@;
    let ghost ps = parents_of(t0);
    let mut a = start;
    while a > 0
        invariant
            nodes@.len() == t0.len(),
            a < t0.len(),
            chain_reaches(ps, start as int, a as int),
            nodes@[a as int].is_dir,
            forall|k: int|
                0 <= k < t0.len() ==> (#[trigger] nodes@[k]).name == t0[k].name && nodes@[k].parent
                    == t0[k].parent && nodes@[k].is_dir == t0[k].is_dir && nodes@[k].is_temp
                    == t0[k].is_temp && nodes@[k].children == t0[k].children,
            forall|k: int|
                0 <= k < t0.len() ==> (#[trigger] nodes@[k]).size as int == t0[k].size + (
                if chain_reaches(ps, start as int, k) && !chain_reaches(ps, a as int, k) {
                    s as int
                } else {
                    0int
                }),
            nodes@[a as int].size + s == children_sum(nodes@, a as int),
            forall|k: int|
                0 <= k < t0.len() && k != a && nodes@[k].is_dir
                    ==> (#[trigger] nodes@[k].size) as int == children_sum(nodes@, k),
        decreases a,
    {
        let ghost t1 = nodes@;
        let sz = nodes[a].size;
        proof {
            assert(chain_reaches(ps, a as int, a as int));
            assert(sz == t0[a as int].size);
        }
        nodes[a].size = sz + s;
        let ghost t2 = nodes@;
        let p = nodes[a].parent;
        proof {
            assert(t2 =~= t1.update(a as int, t2[a as int]));
            // `a` itself is now balanced: its own children list never
            // holds `a`, so its children's sum is unchanged.
            assert forall|j: int| 0 <= j < t2[a as int].children@.len() implies t1[(
                #[trigger] t2[a as int].children@[j]) as int].size == t2[t2[
                a as int].children@[j] as int].size by {
                assert(children_ok(t0, a as int));
            }
            lemma_list_sum_congruence(t1, t2, t2[a as int].children@);
            // the parent takes over the deficit: its list holds `a`
            // exactly once.
            assert(t1[p as int].children@.contains(a as usize));
            assert(children_ok(t0, p as int));
            assert(forall|j: int|
                0 <= j < t1[p as int].children@.len() ==> ((#[trigger] t1[
                p as int].children@[j]) as int) < t1.len());
            lemma_list_sum_bump(t1, t2, t1[p as int].children@, a, s as int);
            assert(chain_reaches(ps, p as int, p as int));
            assert(chain_reaches(ps, a as int, p as int));
            lemma_chain_trans(ps, start as int, a as int, p as int);
            // every other directory's children exclude `a`, so its sum
            // is untouched.
            assert forall|k: int|
                0 <= k < t0.len() && k != a && k != p && nodes@[k].is_dir implies (
            #[trigger] nodes@[k].size) as int == children_sum(nodes@, k) by {
                assert(children_ok(t0, k));
                assert(forall|j: int|
                    0 <= j < t2[k].children@.len() ==> (#[trigger] t2[k].children@[j]) as int
                        != a as int);
                lemma_list_sum_congruence(t1, t2, t2[k].children@);
            }
            // stepping to the parent keeps the chain bookkeeping exact.
            assert forall|k: int|
                0 <= k < t0.len() implies (chain_reaches(ps, a as int, k) == (k == a as int
                || chain_reaches(ps, p as int, k))) by {
            }
            assert forall|k: int|
                0 <= k < t0.len() && chain_reaches(ps, p as int, k) implies k != a as int by {
                lemma_chain_below(ps, p as int, k);
            }
        }
        a = p;
    }
    // the root absorbs the last deficit; it appears in no children list.
    let ghost t1 = nodes@;
    let sz = nodes[0].size;
    proof {
        assert(chain_reaches(ps, a as int, 0));
        assert(sz == t0[0].size);
    }
    nodes[0].size = sz + s;
    proof {
        let t2 = nodes@;
        assert forall|k: int| 0 <= k < t0.len() && nodes@[k].is_dir implies (
        #[trigger] nodes@[k].size) as int == children_sum(nodes@, k) by {
            assert(children_ok(t0, k));
            assert(forall|j: int|
                0 <= j < t2[k].children@.len() ==> (#[trigger] t2[k].children@[j]) as int != 0);
            lemma_list_sum_congruence(t1, t2, t2[k].children@);
        }
        assert forall|k: int| 0 <= k < t0.len() implies (#[trigger] nodes@[k]).size as int == t0[
            k].size + (if chain_reaches(ps, start as int, k) {
            s as int
        } else {
            0int
        }) by {
            if k != 0 {
                if chain_reaches(ps, 0, k) {
                    lemma_chain_below(ps, 0, k);
                }
            } else {
                lemma_chain_to_root_nodes(t0, start as int);
            }
        }
    }
}

/// In a well-formed arena every chain ends at the root.
proof fn lemma_chain_to_root_nodes(t: Seq<TreeNode>, x: int)
    requires
        0 <= x < t.len(),
        t[0].parent == 0,
        forall|k: int| 1 <= k < t.len() ==> (#[trigger] t[k].parent) < k,
    ensures
        chain_reaches(parents_of(t), x, 0),
    decreases x,
{
    if x > 0 {
        lemma_chain_to_root_nodes(t, parents_of(t)[x] as int);
    }
}

impl DirTree {
    /// Build the whole index from a recorded walk in one pass.  Each
    /// entry becomes a node attached to its parent; a file's size is
    /// added to every ancestor's running total as it is seen, so after
    /// the pass each directory's size is the sum of the file sizes below
    /// it and the aggregation invariant holds.  The progress counters
    /// (which must start at zero) are updated entry by entry for an
    /// external renderer.
    #[verifier::loop_isolation(false)]
    pub fn build_with_progress(
        entries: &Vec<RawEntry>,
        matcher: &PatternMatcher,
        progress: &mut ScanProgress,
    ) -> (t: DirTree)
        requires
            entries_wf(entries@),
            files_under(entries@, 0, entries@.len() as int) <= u64::MAX,
            entries@.len() < usize::MAX,
            old(progress).files == 0,
            old(progress).dirs == 0,
            old(progress).bytes == 0,
        ensures
            nodes_wf(t.nodes@),
            aggregated(t.nodes@),
            t.nodes@.len() == entries@.len() + 1,
            t.nodes@[0].name@ == Seq::<char>::empty(),
            t.nodes@[0].parent == 0,
            t.nodes@[0].is_dir,
            !t.nodes@[0].is_temp,
            forall|k: int|
                1 <= k < t.nodes@.len() ==> (#[trigger] t.nodes@[k]).name == entries@[k - 1].name
                    && t.nodes@[k].parent == entries@[k - 1].parent && t.nodes@[k].is_dir
                    == entries@[k - 1].is_dir,
            forall|k: int|
                1 <= k < t.nodes@.len() ==> (#[trigger] t.nodes@[k]).is_temp == name_matches(
                    matcher.dirs.deep_view(),
                    matcher.files.deep_view(),
                    entries@[k - 1].name@,
                    entries@[k - 1].is_dir,
                ),
            forall|k: int|
                0 <= k < t.nodes@.len() && (#[trigger] t.nodes@[k]).is_dir ==> t.nodes@[k].size
                    as int == files_under(entries@, k, entries@.len() as int),
            forall|k: int|
                1 <= k < t.nodes@.len() && !(#[trigger] t.nodes@[k]).is_dir ==> t.nodes@[k].size
                    == entries@[k - 1].size,
            forall|k: int, j1: int, j2: int|
                0 <= k < t.nodes@.len() && 0 <= j1 < j2 < t.nodes@[k].children@.len()
                    ==> (#[trigger] t.nodes@[k].children@[j1]) < (#[trigger] t.nodes@[
                k].children@[j2]),
            forall|c: int|
                1 <= c < t.nodes@.len() ==> #[trigger] t.nodes@[t.nodes@[
                c].parent as int].children@.contains(c as usize),
            final(progress).files == files_count(entries@, entries@.len() as int),
            final(progress).dirs == dirs_count(entries@, entries@.len() as int),
            final(progress).bytes as int == files_under(entries@, 0, entries@.len() as int),
            final(progress).phase == 1,
            final(progress).done,
    {
        let ghost e = entries@;
        let ghost ps = entry_parents(e);
        let n = entries.len();
        let mut nodes: Vec<TreeNode> = Vec::new();
        nodes.push(
            TreeNode {
                name: String::new(),
                parent: 0,
                is_dir: true,
                is_temp: false,
                size: 0,
                children: Vec::new(),
            },
        );
        let mut i: usize = 0;
        while i < n
            invariant
                i <= n,
                nodes@.len() == i + 1,
                nodes@[0].parent == 0,
                nodes@[0].is_dir,
                !nodes@[0].is_temp,
                nodes@[0].name@ == Seq::<char>::empty(),
                forall|k: int|
                    1 <= k <= i ==> (#[trigger] nodes@[k]).name == e[k - 1].name && nodes@[k].parent
                        == e[k - 1].parent && nodes@[k].is_dir == e[k - 1].is_dir,
                forall|k: int|
                    1 <= k <= i ==> (#[trigger] nodes@[k]).is_temp == name_matches(
                        matcher.dirs.deep_view(),
                        matcher.files.deep_view(),
                        e[k - 1].name@,
                        e[k - 1].is_dir,
                    ),
                forall|k: int| 0 <= k <= i ==> #[trigger] children_ok(nodes@, k),
                forall|k: int, j1: int, j2: int|
                    0 <= k <= i && 0 <= j1 < j2 < nodes@[k].children@.len()
                        ==> (#[trigger] nodes@[k].children@[j1]) < (#[trigger] nodes@[
                    k].children@[j2]),
                forall|c: int|
                    1 <= c <= i ==> #[trigger] nodes@[nodes@[c].parent as int].children@.contains(
                        c as usize,
                    ),
                forall|k: int|
                    0 <= k <= i && (#[trigger] nodes@[k]).is_dir ==> nodes@[k].size as int
                        == files_under(e, k, i as int),
                forall|k: int|
                    1 <= k <= i && !(#[trigger] nodes@[k]).is_dir ==> nodes@[k].size == e[k
                        - 1].size,
                forall|k: int|
                    0 <= k <= i && (#[trigger] nodes@[k]).is_dir ==> nodes@[k].size as int
                        == children_sum(nodes@, k),
                progress.files == files_count(e, i as int),
                progress.files <= i,
                progress.dirs == dirs_count(e, i as int),
                progress.dirs <= i,
                progress.bytes as int == files_under(e, 0, i as int),
                progress.done == old(progress).done,
                progress.phase == old(progress).phase,
            decreases n - i,
        {
            let ghost base = nodes@;
            let ent = &entries[i];
            let c = i + 1;
            let is_temp = if ent.is_dir {
                matcher.is_temp_directory(ent.name.as_str())
            } else {
                matcher.is_temp_file(ent.name.as_str())
            };
            let size0 = if ent.is_dir {
                0
            } else {
                ent.size
            };
            nodes.push(
                TreeNode {
                    name: ent.name.clone(),
                    parent: ent.parent,
                    is_dir: ent.is_dir,
                    is_temp,
                    size: size0,
                    children: Vec::new(),
                },
            );
            let p0 = ent.parent;
            nodes[p0].children.push(c);
            let ghost mid = nodes@;
            proof {
                // the new node and child link keep every structural
                // invariant; old children lists cannot hold node `c`.
                assert forall|k: int| 0 <= k <= i + 1 implies #[trigger] children_ok(mid, k) by {
                    if k <= i {
                        assert(children_ok(base, k));
                    }
                }
                assert forall|k: int|
                    0 <= k <= i + 1 && k != p0 && (#[trigger] mid[k]).is_dir implies mid[k].size
                    as int == children_sum(mid, k) by {
                    if k <= i {
                        assert(children_ok(base, k));
                        lemma_list_sum_congruence(base, mid, mid[k].children@);
                    }
                }
                // the parent's sum has grown by the new node's size.
                assert(mid[p0 as int].children@ =~= base[p0 as int].children@.push(c));
                assert(mid[p0 as int].children@.drop_last() =~= base[p0 as int].children@);
                assert(children_ok(base, p0 as int));
                lemma_list_sum_congruence(base, mid, base[p0 as int].children@);
                assert(children_sum(mid, p0 as int) == children_sum(base, p0 as int)
                    + size0 as int);
                // every node, the new one included, stays listed in its
                // parent's children list.
                assert(mid[p0 as int].children@[mid[p0 as int].children@.len() - 1] == c);
                assert(mid[p0 as int].children@.contains(c as usize));
                assert forall|c2: int|
                    1 <= c2 <= i + 1 implies #[trigger] mid[mid[
                c2].parent as int].children@.contains(c2 as usize) by {
                    if c2 <= i {
                        assert(base[base[c2].parent as int].children@.contains(c2 as usize));
                        if mid[c2].parent as int == p0 as int {
                            let l = base[p0 as int].children@;
                            let w = choose|j: int| 0 <= j < l.len() && l[j] == c2 as usize;
                            assert(mid[p0 as int].children@[w] == c2 as usize);
                        }
                    }
                }
            }
            if ent.is_dir {
                progress.add_dir();
                proof {
                    assert forall|k: int|
                        0 <= k <= i + 1 && (#[trigger] nodes@[k]).is_dir implies nodes@[k].size
                        as int == files_under(e, k, i + 1) by {
                        if k <= i {
                            assert(files_under(e, k, i + 1) == files_under(e, k, i as int));
                        } else {
                            lemma_files_under_of_new(e, k, i as int);
                            assert(files_under(e, k, i + 1) == files_under(e, k, i as int));
                        }
                    }
                    assert(dirs_count(e, i + 1) == dirs_count(e, i as int) + 1);
                    assert(files_under(e, 0, i + 1) == files_under(e, 0, i as int));
                }
            } else {
                progress.add_file(ent.size);
                proof {
                    // every chain ancestor can absorb the file's size.
                    assert(parents_of(mid).len() == i + 2);
                    assert(forall|k: int| 0 <= k <= i + 1 ==> parents_of(mid)[k] == ps[k]);
                    assert forall|d: int|
                        0 <= d < mid.len() && chain_reaches(parents_of(mid), p0 as int, d) implies (
                    #[trigger] mid[d].size) + ent.size <= u64::MAX by {
                        lemma_chain_agree(parents_of(mid), ps, p0 as int, d);
                        lemma_chain_below(ps, p0 as int, d);
                        lemma_chain_dirs(e, p0 as int, d);
                        assert(mid[d].is_dir);
                        assert(mid[d].size as int == files_under(e, d, i as int));
                        assert(chain_reaches(ps, (i + 1) as int, d));
                        assert(files_under(e, d, i + 1) == files_under(e, d, i as int)
                            + ent.size as int);
                        lemma_files_under_mono(e, d, i + 1, n as int);
                        lemma_files_under_le_root(e, d, n as int);
                    }
                    assert(mid[p0 as int].size + ent.size == children_sum(mid, p0 as int));
                }
                bubble_size(&mut nodes, p0, ent.size);
                proof {
                    let post = nodes@;
                    assert forall|k: int|
                        0 <= k <= i + 1 && (#[trigger] post[k]).is_dir implies post[k].size as int
                        == files_under(e, k, i + 1) by {
                        lemma_chain_agree(parents_of(mid), ps, p0 as int, k);
                        if chain_reaches(ps, p0 as int, k) {
                            lemma_chain_below(ps, p0 as int, k);
                            assert(chain_reaches(ps, (i + 1) as int, k));
                            assert(post[k].size as int == files_under(e, k, i as int)
                                + ent.size as int);
                            assert(files_under(e, k, i + 1) == files_under(e, k, i as int)
                                + ent.size as int);
                        } else {
                            if k == i + 1 {
                                lemma_files_under_of_new(e, k, i as int);
                            }
                            if chain_reaches(ps, (i + 1) as int, k) {
                                assert(k != i + 1);
                                assert(chain_reaches(ps, p0 as int, k));
                            }
                            assert(files_under(e, k, i + 1) == files_under(e, k, i as int));
                        }
                    }
                    assert forall|k: int|
                        1 <= k <= i + 1 && !(#[trigger] post[k]).is_dir implies post[k].size == e[k
                        - 1].size by {
                        if chain_reaches(parents_of(mid), p0 as int, k) {
                            lemma_chain_agree(parents_of(mid), ps, p0 as int, k);
                            lemma_chain_dirs(e, p0 as int, k);
                        }
                    }
                    assert(files_count(e, i + 1) == files_count(e, i as int) + 1);
                    assert(chain_reaches(ps, (i + 1) as int, 0)) by {
                        lemma_chain_to_root(e, (i + 1) as int);
                    }
                    assert(files_under(e, 0, i + 1) == files_under(e, 0, i as int)
                        + ent.size as int);
                    lemma_files_under_mono(e, 0, i + 1, n as int);
                    // the walk changed sizes only: the structure, the
                    // listings and the marks are those of `mid`.
                    assert forall|k: int| 0 <= k <= i + 1 implies #[trigger] children_ok(
                        nodes@,
                        k,
                    ) by {
                        assert(children_ok(mid, k));
                    }
                    assert forall|c2: int|
                        1 <= c2 <= i + 1 implies #[trigger] nodes@[nodes@[
                    c2].parent as int].children@.contains(c2 as usize) by {
                        assert(mid[mid[c2].parent as int].children@.contains(c2 as usize));
                        assert(nodes@[c2].parent == mid[c2].parent);
                        assert(nodes@[mid[c2].parent as int].children == mid[mid[
                        c2].parent as int].children);
                    }
                }
            }
            i = c;
        }
        progress.set_phase(1);
        progress.set_done();
        DirTree { nodes }
    }
}

/// The ghost image of a listing row: the name as a character sequence.
pub struct DirEntryV {
    pub node: usize,
    pub name: Seq<char>,
    pub size: u64,
    pub is_dir: bool,
    pub is_temp: bool,
}

impl View for DirEntry {
    type V = DirEntryV;

    open spec fn view(&self) -> DirEntryV {
        DirEntryV {
            node: self.node,
            name: self.name@,
            size: self.size,
            is_dir: self.is_dir,
            is_temp: self.is_temp,
        }
    }
}

/// The ghost images of a row sequence.
pub open spec fn views_of(s: Seq<DirEntry>) -> Seq<DirEntryV> {
    s.map_values(|e: DirEntry| e@)
}

/// The default listing order: the parent-navigation row first, then
/// directories before files, then larger sizes first.
pub open spec fn size_le(a: DirEntry, b: DirEntry) -> bool {
    if a.name@ == ".."@ {
        true
    } else if b.name@ == ".."@ {
        false
    } else if a.is_dir != b.is_dir {
        a.is_dir
    } else {
        a.size >= b.size
    }
}

/// The name order: the parent-navigation row first, then directories
/// before files, then case-insensitive name order.
pub open spec fn name_le(a: DirEntry, b: DirEntry) -> bool {
    if a.name@ == ".."@ {
        true
    } else if b.name@ == ".."@ {
        false
    } else if a.is_dir != b.is_dir {
        a.is_dir
    } else {
        lex_le(lower_of(a.name@), lower_of(b.name@))
    }
}

pub proof fn lemma_size_le_total(a: DirEntry, b: DirEntry)
    ensures
        size_le(a, b) || size_le(b, a),
{
}

pub proof fn lemma_size_le_trans(a: DirEntry, b: DirEntry, c: DirEntry)
    requires
        size_le(a, b),
        size_le(b, c),
    ensures
        size_le(a, c),
{
}

pub proof fn lemma_name_le_total(a: DirEntry, b: DirEntry)
    ensures
        name_le(a, b) || name_le(b, a),
{
    lemma_lex_le_total(lower_of(a.name@), lower_of(b.name@));
}

pub proof fn lemma_name_le_trans(a: DirEntry, b: DirEntry, c: DirEntry)
    requires
        name_le(a, b),
        name_le(b, c),
    ensures
        name_le(a, c),
{
    if a.name@ != ".."@ && b.name@ != ".."@ && c.name@ != ".."@ {
        if a.is_dir == b.is_dir && b.is_dir == c.is_dir {
            lemma_lex_le_trans(lower_of(a.name@), lower_of(b.name@), lower_of(c.name@));
        }
    }
}

fn size_le_exec(a: &DirEntry, b: &DirEntry) -> (r: bool)
    ensures
        r == size_le(*a, *b),
{
    if str_eq(a.name.as_str(), "..") {
        true
    } else if str_eq(b.name.as_str(), "..") {
        false
    } else if a.is_dir != b.is_dir {
        a.is_dir
    } else {
        a.size >= b.size
    }
}

fn name_le_exec(a: &DirEntry, b: &DirEntry) -> (r: bool)
    ensures
        r == name_le(*a, *b),
{
    if str_eq(a.name.as_str(), "..") {
        true
    } else if str_eq(b.name.as_str(), "..") {
        false
    } else if a.is_dir != b.is_dir {
        a.is_dir
    } else {
        let la = lowercase(a.name.as_str());
        let lb = lowercase(b.name.as_str());
        str_lex_le(la.as_str(), lb.as_str())
    }
}

/// Inserting a row adds its image to the sequence's image multiset.
proof fn lemma_insert_views(s: Seq<DirEntry>, k: int, x: DirEntry)
    requires
        0 <= k <= s.len(),
    ensures
        views_of(s.insert(k, x)).to_multiset() == views_of(s).to_multiset().insert(x@),
{
    broadcast use vstd::seq_lib::group_to_multiset_ensures;

    let v = views_of(s);
    let vi = views_of(s.insert(k, x));
    assert(vi =~= v.insert(k, x@));
    assert(v.insert(k, x@) =~= v.subrange(0, k).push(x@) + v.subrange(k, v.len() as int));
    vstd::seq_lib::lemma_multiset_commutative(v.subrange(0, k).push(x@), v.subrange(k, v.len() as int));
    assert(v =~= v.subrange(0, k) + v.subrange(k, v.len() as int));
    vstd::seq_lib::lemma_multiset_commutative(v.subrange(0, k), v.subrange(k, v.len() as int));
    assert(v.subrange(0, k).push(x@).to_multiset() =~= v.subrange(0, k).to_multiset().insert(x@));
    assert(vi.to_multiset() =~= v.to_multiset().insert(x@));
}

/// Removing the first row removes its image from the image multiset.
proof fn lemma_remove_first_views(s: Seq<DirEntry>)
    requires
        s.len() > 0,
    ensures
        views_of(s.remove(0)).to_multiset() == views_of(s).to_multiset().remove(s[0]@),
        views_of(s).to_multiset().contains(s[0]@),
{
    broadcast use vstd::seq_lib::group_to_multiset_ensures;

    let v = views_of(s);
    assert(views_of(s.remove(0)) =~= v.remove(0));
    assert(v.remove(0).to_multiset() == v.to_multiset().remove(v[0]));
    assert(v.contains(v[0]));
}

/// Sort rows by the default order: parent-navigation row first,
/// directories before files, larger sizes first.  The rows are only
/// rearranged.
pub fn sort_by_size(entries: &mut Vec<DirEntry>)
    ensures
        views_of(final(entries)@).to_multiset() == views_of(old(entries)@).to_multiset(),
        forall|i: int, j: int|
            0 <= i < j < final(entries)@.len() ==> size_le(
                final(entries)@[i],
                final(entries)@[j],
            ),
        final(entries)@.len() == old(entries)@.len(),
{
    let ghost orig = entries@;
    let mut out: Vec<DirEntry> = Vec::new();
    proof {
        broadcast use vstd::seq_lib::group_to_multiset_ensures;

        assert(views_of(out@) =~= Seq::<DirEntryV>::empty());
        assert(views_of(out@).to_multiset() =~= Multiset::<DirEntryV>::empty());
    }
    while entries.len() > 0
        invariant
            out@.len() + entries@.len() == orig.len(),
            views_of(out@).to_multiset().add(views_of(entries@).to_multiset()) == views_of(
                orig,
            ).to_multiset(),
            forall|i: int, j: int| 0 <= i < j < out@.len() ==> size_le(out@[i], out@[j]),
        decreases entries@.len(),
    {
        let ghost pre_entries = entries@;
        let ghost pre_out = out@;
        let x = entries.remove(0);
        proof {
            lemma_remove_first_views(pre_entries);
        }
        let n = out.len();
        let mut k: usize = 0;
        while k < n && size_le_exec(&out[k], &x)
            invariant
                n == out@.len(),
                k <= n,
                out@ == pre_out,
                forall|j: int| 0 <= j < k ==> size_le(out@[j], x),
            decreases n - k,
        {
            k += 1;
        }
        proof {
            lemma_insert_views(out@, k as int, x);
            if k < n {
                lemma_size_le_total(out@[k as int], x);
            }
            assert forall|i: int, j: int|
                0 <= i < j < out@.insert(k as int, x).len() implies size_le(
                out@.insert(k as int, x)[i],
                out@.insert(k as int, x)[j],
            ) by {
                let oi = out@.insert(k as int, x);
                if i < k && j == k {
                } else if i == k && j > k {
                    lemma_size_le_trans(x, out@[k as int], oi[j]);
                } else {
                }
            }
        }
        out.insert(k, x);
    }
    proof {
        broadcast use vstd::seq_lib::group_to_multiset_ensures;

        assert(views_of(entries@) =~= Seq::<DirEntryV>::empty());
        assert(views_of(entries@).to_multiset() =~= Multiset::<DirEntryV>::empty());
    }
    *entries = out;
}

/// Sort rows by name: parent-navigation row first, directories before
/// files, case-insensitive name order.  The rows are only rearranged.
pub fn sort_by_name(entries: &mut Vec<DirEntry>)
    ensures
        views_of(final(entries)@).to_multiset() == views_of(old(entries)@).to_multiset(),
        forall|i: int, j: int|
            0 <= i < j < final(entries)@.len() ==> name_le(
                final(entries)@[i],
                final(entries)@[j],
            ),
        final(entries)@.len() == old(entries)@.len(),
{
    let ghost orig = entries@;
    let mut out: Vec<DirEntry> = Vec::new();
    proof {
        broadcast use vstd::seq_lib::group_to_multiset_ensures;

        assert(views_of(out@) =~= Seq::<DirEntryV>::empty());
        assert(views_of(out@).to_multiset() =~= Multiset::<DirEntryV>::empty());
    }
    while entries.len() > 0
        invariant
            out@.len() + entries@.len() == orig.len(),
            views_of(out@).to_multiset().add(views_of(entries@).to_multiset()) == views_of(
                orig,
            ).to_multiset(),
            forall|i: int, j: int| 0 <= i < j < out@.len() ==> name_le(out@[i], out@[j]),
        decreases entries@.len(),
    {
        let ghost pre_entries = entries@;
        let ghost pre_out = out@;
        let x = entries.remove(0);
        proof {
            lemma_remove_first_views(pre_entries);
        }
        let n = out.len();
        let mut k: usize = 0;
        while k < n && name_le_exec(&out[k], &x)
            invariant
                n == out@.len(),
                k <= n,
                out@ == pre_out,
                forall|j: int| 0 <= j < k ==> name_le(out@[j], x),
            decreases n - k,
        {
            k += 1;
        }
        proof {
            lemma_insert_views(out@, k as int, x);
            if k < n {
                lemma_name_le_total(out@[k as int], x);
            }
            assert forall|i: int, j: int|
                0 <= i < j < out@.insert(k as int, x).len() implies name_le(
                out@.insert(k as int, x)[i],
                out@.insert(k as int, x)[j],
            ) by {
                let oi = out@.insert(k as int, x);
                if i < k && j == k {
                } else if i == k && j > k {
                    lemma_name_le_total(out@[k as int], out@[k as int]);
                    lemma_name_le_trans(x, out@[k as int], oi[j]);
                } else {
                }
            }
        }
        out.insert(k, x);
    }
    proof {
        broadcast use vstd::seq_lib::group_to_multiset_ensures;

        assert(views_of(entries@) =~= Seq::<DirEntryV>::empty());
        assert(views_of(entries@).to_multiset() =~= Multiset::<DirEntryV>::empty());
    }
    *entries = out;
}

/// The position of node `c` in a children list that holds it; with the
/// well-formed lists (no repeats) it is the unique one.
pub open spec fn child_slot(l: Seq<usize>, c: usize) -> int {
    choose|j: int| 0 <= j < l.len() && l[j] == c
}

/// The ghost image of the listing row for node `c`.
pub open spec fn entry_image(t: Seq<TreeNode>, c: int) -> DirEntryV {
    DirEntryV {
        node: c as usize,
        name: t[c].name@,
        size: t[c].size,
        is_dir: t[c].is_dir,
        is_temp: t[c].is_temp,
    }
}

/// The ghost image of the synthetic parent-navigation row of node
/// `node`'s listing.
pub open spec fn dotdot_image(t: Seq<TreeNode>, node: int) -> DirEntryV {
    DirEntryV { node: t[node].parent, name: ".."@, size: 0, is_dir: true, is_temp: false }
}

/// The rows of node `node`'s listing, before ordering: the synthetic
/// parent-navigation row (absent at the root), then one row per child in
/// stored order.
pub open spec fn listing_of(t: Seq<TreeNode>, node: int) -> Seq<DirEntryV> {
    let kids = Seq::new(
        t[node].children@.len(),
        |j: int| entry_image(t, t[node].children@[j] as int),
    );
    if node != 0 {
        seq![dotdot_image(t, node)] + kids
    } else {
        kids
    }
}

/// Whatever the chain of an attached node reaches is attached too.
pub proof fn lemma_reachable_chain(t: Seq<TreeNode>, x: int, d: int)
    requires
        reachable(t, x),
        0 <= x < t.len(),
        chain_reaches(parents_of(t), x, d),
    ensures
        reachable(t, d),
        0 <= d < t.len(),
    decreases x,
{
    if x != d {
        lemma_reachable_chain(t, t[x].parent as int, d);
    }
}

/// Reachability reads only the children lists of the node's proper
/// ancestors: two arenas with the same parents that agree on those
/// lists agree on reachability.
pub proof fn lemma_reachable_same_links(t1: Seq<TreeNode>, t2: Seq<TreeNode>, k: int)
    requires
        t1.len() == t2.len(),
        forall|j: int| 0 <= j < t1.len() ==> (#[trigger] t1[j].parent) == t2[j].parent,
        forall|d: int|
            0 <= d < t1.len() && chain_reaches(parents_of(t1), k, d) && d != k ==> (#[trigger] t1[
                d].children) == t2[d].children,
    ensures
        reachable(t1, k) == reachable(t2, k),
    decreases k,
{
    if 0 < k < t1.len() && (t1[k].parent as int) < k {
        let p = t1[k].parent as int;
        assert(chain_reaches(parents_of(t1), p, p));
        assert(chain_reaches(parents_of(t1), k, p));
        assert forall|d: int|
            0 <= d < t1.len() && chain_reaches(parents_of(t1), p, d) && d != p implies (
        #[trigger] t1[d].children) == t2[d].children by {
            lemma_chain_below(parents_of(t1), p, d);
            assert(chain_reaches(parents_of(t1), k, d));
        }
        lemma_reachable_same_links(t1, t2, p);
    }
}

/// Losing entries from children lists can only lose reachability.
pub proof fn lemma_reachable_monotone(t1: Seq<TreeNode>, t2: Seq<TreeNode>, k: int)
    requires
        t1.len() == t2.len(),
        forall|j: int| 0 <= j < t1.len() ==> (#[trigger] t1[j].parent) == t2[j].parent,
        forall|j: int, c: usize|
            0 <= j < t1.len() && #[trigger] t2[j].children@.contains(c) ==> t1[
                j].children@.contains(c),
        reachable(t2, k),
    ensures
        reachable(t1, k),
    decreases k,
{
    if 0 < k < t1.len() && (t1[k].parent as int) < k {
        lemma_reachable_monotone(t1, t2, t1[k].parent as int);
    }
}

/// Under the aggregation invariant an attached node's size is at most
/// every ancestor's size.
pub proof fn lemma_ancestor_size_dominates(t: Seq<TreeNode>, x: int, d: int)
    requires
        nodes_wf(t),
        aggregated(t),
        t.len() <= usize::MAX,
        0 <= x < t.len(),
        reachable(t, x),
        chain_reaches(parents_of(t), x, d),
    ensures
        0 <= d < t.len(),
        t[d].size >= t[x].size,
    decreases x,
{
    if x != d {
        assert(0 < x);
        let p = t[x].parent as int;
        assert(parents_of(t)[x] == t[x].parent);
        assert(chain_reaches(parents_of(t), p, d));
        let l = t[p].children@;
        assert(l.contains(x as usize));
        let j = choose|j: int| 0 <= j < l.len() && l[j] == x as usize;
        lemma_list_sum_bounds_member(t, l, j);
        assert(t[l[j] as int].size == t[x].size);
        assert(reachable(t, p));
        assert(t[p].is_dir);
        assert(t[p].size as int == children_sum(t, p));
        lemma_ancestor_size_dominates(t, p, d);
    }
}

/// Subtract `s` from the recorded size of `start` and of every ancestor
/// up to the root.  On entry the attached part of the arena satisfies
/// the aggregation invariant everywhere except at `start`, whose size
/// exceeds its children's sum by exactly `s` (its children list has just
/// lost that much); on exit it holds on every attached directory.
/// Nothing but the chain's sizes changes.
#[verifier::loop_isolation(false)]
fn shrink_size(nodes: &mut Vec<TreeNode>, start: usize, s: u64)
    requires
        old(nodes)@.len() >= 1,
        old(nodes)@[0].parent == 0,
        old(nodes)@[0].is_dir,
        forall|k: int| 1 <= k < old(nodes)@.len() ==> (#[trigger] old(nodes)@[k].parent) < k,
        forall|k: int| 0 <= k < old(nodes)@.len() ==> #[trigger] children_ok(old(nodes)@, k),
        start < old(nodes)@.len(),
        old(nodes)@[start as int].is_dir,
        reachable(old(nodes)@, start as int),
        forall|d: int|
            0 <= d < old(nodes)@.len() && chain_reaches(parents_of(old(nodes)@), start as int, d)
                ==> (#[trigger] old(nodes)@[d].size) >= s,
        old(nodes)@[start as int].size as int == children_sum(old(nodes)@, start as int) + s,
        forall|k: int|
            0 <= k < old(nodes)@.len() && k != start && old(nodes)@[k].is_dir && reachable(
                old(nodes)@,
                k,
            ) ==> (#[trigger] old(nodes)@[k].size) as int == children_sum(old(nodes)@, k),
    ensures
        final(nodes)@.len() == old(nodes)@.len(),
        forall|k: int|
            0 <= k < old(nodes)@.len() ==> (#[trigger] final(nodes)@[k]).name == old(nodes)@[k].name && final(nodes)@[k].parent == old(nodes)@[k].parent && final(nodes)@[k].is_dir == old(nodes)@[k].is_dir && final(nodes)@[k].is_temp == old(nodes)@[k].is_temp && final(nodes)@[k].children == old(nodes)@[k].children,
        forall|k: int|
            0 <= k < old(nodes)@.len() ==> (#[trigger] final(nodes)@[k]).size as int == old(nodes)@[k].size - (if chain_reaches(parents_of(old(nodes)@), start as int, k) {
                s as int
            } else {
                0int
            }),
        forall|k: int|
            0 <= k < old(nodes)@.len() && final(nodes)@[k].is_dir && reachable(old(nodes)@, k)
                ==> (#[trigger] final(nodes)@[k].size) as int == children_sum(final(nodes)@, k),
{
    let ghost t0 = old(nodes)@;
    let ghost ps = parents_of(t0);
    let mut a = start;
    while a > 0
        invariant
            nodes@.len() == t0.len(),
            a < t0.len(),
            chain_reaches(ps, start as int, a as int),
            nodes@[a as int].is_dir,
            reachable(t0, a as int),
            forall|k: int|
                0 <= k < t0.len() ==> (#[trigger] nodes@[k]).name == t0[k].name && nodes@[k].parent
                    == t0[k].parent && nodes@[k].is_dir == t0[k].is_dir && nodes@[k].is_temp
                    == t0[k].is_temp && nodes@[k].children == t0[k].children,
            forall|k: int|
                0 <= k < t0.len() ==> (#[trigger] nodes@[k]).size as int == t0[k].size - (
                if chain_reaches(ps, start as int, k) && !chain_reaches(ps, a as int, k) {
                    s as int
                } else {
                    0int
                }),
            nodes@[a as int].size as int == children_sum(nodes@, a as int) + s,
            forall|k: int|
                0 <= k < t0.len() && k != a && nodes@[k].is_dir && reachable(t0, k)
                    ==> (#[trigger] nodes@[k].size) as int == children_sum(nodes@, k),
        decreases a,
    {
        let ghost t1 = nodes@;
        let sz = nodes[a].size;
        proof {
            assert(chain_reaches(ps, a as int, a as int));
            assert(sz == t0[a as int].size);
        }
        nodes[a].size = sz - s;
        let ghost t2 = nodes@;
        let p = nodes[a].parent;
        proof {
            // `a` itself is now balanced: its own children list never
            // holds `a`.
            assert forall|j: int| 0 <= j < t2[a as int].children@.len() implies t1[(
            #[trigger] t2[a as int].children@[j]) as int].size == t2[t2[
                a as int].children@[j] as int].size by {
                assert(children_ok(t0, a as int));
            }
            lemma_list_sum_congruence(t1, t2, t2[a as int].children@);
            // the parent takes over the surplus: its list holds `a`
            // exactly once because `a` is attached.
            assert(t1[p as int].children@.contains(a as usize));
            assert(children_ok(t0, p as int));
            assert(forall|j: int|
                0 <= j < t1[p as int].children@.len() ==> ((#[trigger] t1[
                p as int].children@[j]) as int) < t1.len());
            lemma_list_sum_bump(t1, t2, t1[p as int].children@, a, -(s as int));
            assert(chain_reaches(ps, p as int, p as int));
            assert(chain_reaches(ps, a as int, p as int));
            lemma_chain_trans(ps, start as int, a as int, p as int);
            // every other attached directory's children exclude `a`.
            assert forall|k: int|
                0 <= k < t0.len() && k != a as int && k != p as int && nodes@[k].is_dir
                    && reachable(t0, k) implies (#[trigger] nodes@[k].size) as int == children_sum(
                nodes@,
                k,
            ) by {
                assert(children_ok(t0, k));
                assert(forall|j: int|
                    0 <= j < t2[k].children@.len() ==> (#[trigger] t2[k].children@[j]) as int
                        != a as int);
                lemma_list_sum_congruence(t1, t2, t2[k].children@);
            }
            assert forall|k: int|
                0 <= k < t0.len() && chain_reaches(ps, p as int, k) implies k != a as int by {
                lemma_chain_below(ps, p as int, k);
            }
        }
        a = p;
    }
    // the root absorbs the last surplus; it appears in no children list.
    let ghost t1 = nodes@;
    let sz = nodes[0].size;
    proof {
        assert(chain_reaches(ps, a as int, 0));
        assert(sz == t0[0].size);
    }
    nodes[0].size = sz - s;
    proof {
        let t2 = nodes@;
        assert forall|k: int|
            0 <= k < t0.len() && nodes@[k].is_dir && reachable(t0, k) implies (
        #[trigger] nodes@[k].size) as int == children_sum(nodes@, k) by {
            assert(children_ok(t0, k));
            assert(forall|j: int|
                0 <= j < t2[k].children@.len() ==> (#[trigger] t2[k].children@[j]) as int != 0);
            lemma_list_sum_congruence(t1, t2, t2[k].children@);
        }
        assert forall|k: int| 0 <= k < t0.len() implies (#[trigger] nodes@[k]).size as int == t0[
            k].size - (if chain_reaches(ps, start as int, k) {
            s as int
        } else {
            0int
        }) by {
            if k != 0 {
                if chain_reaches(ps, 0, k) {
                    lemma_chain_below(ps, 0, k);
                }
            } else {
                lemma_chain_to_root_nodes(t0, start as int);
            }
        }
    }
}

impl DirTree {
    /// The rows of node `node`'s listing, in the default order: the
    /// synthetic parent-navigation row first (absent at the root), then
    /// the children, directories before files, larger sizes first.  No
    /// filesystem access: the rows come from the stored index alone.
    pub fn get_children(&self, node: usize) -> (r: Vec<DirEntry>)
        requires
            nodes_wf(self.nodes@),
            node < self.nodes@.len(),
        ensures
            views_of(r@).to_multiset() == listing_of(self.nodes@, node as int).to_multiset(),
            forall|i: int, j: int| 0 <= i < j < r@.len() ==> size_le(r@[i], r@[j]),
            r@.len() == self.nodes@[node as int].children@.len() + (if node == 0 {
                0int
            } else {
                1int
            }),
    {
        let ghost t = self.nodes@;
        let ghost full = listing_of(t, node as int);
        let ghost off: int = if node == 0 {
            0
        } else {
            1
        };
        let mut r: Vec<DirEntry> = Vec::new();
        if node != 0 {
            r.push(
                DirEntry {
                    node: self.nodes[node].parent,
                    name: String::from_str(".."),
                    size: 0,
                    is_dir: true,
                    is_temp: false,
                },
            );
        }
        let n = self.nodes[node].children.len();
        let mut j: usize = 0;
        while j < n
            invariant
                t == self.nodes@,
                nodes_wf(t),
                node < t.len(),
                n == t[node as int].children@.len(),
                j <= n,
                off == (if node == 0 {
                    0int
                } else {
                    1int
                }),
                full == listing_of(t, node as int),
                full.len() == n + off,
                r@.len() == j + off,
                forall|i: int| 0 <= i < j + off ==> (#[trigger] r@[i])@ == full[i],
            decreases n - j,
        {
            let c = self.nodes[node].children[j];
            proof {
                assert(children_ok(t, node as int));
            }
            let nd = &self.nodes[c];
            r.push(
                DirEntry {
                    node: c,
                    name: nd.name.clone(),
                    size: nd.size,
                    is_dir: nd.is_dir,
                    is_temp: nd.is_temp,
                },
            );
            j += 1;
        }
        proof {
            assert(views_of(r@) =~= full);
        }
        sort_by_size(&mut r);
        r
    }

    /// Remove one attached entry from the tree and patch every ancestor's
    /// recorded size, walking the parent chain once: the entry leaves its
    /// parent's children list (the survivors keep their order), each
    /// ancestor's size drops by exactly the entry's recorded size, and a
    /// removed directory's own children list is discarded.  The rest of
    /// the tree, and the aggregation invariant over what stays attached,
    /// are untouched.
    ///
    /// The entry must be attached: callers delete rows taken from a live
    /// listing, so a stale or detached node number is deliberately ruled
    /// out here rather than ignored.
    #[verifier::loop_isolation(false)]
    pub fn delete_entry(&mut self, node: usize, is_dir: bool)
        requires
            nodes_wf(old(self).nodes@),
            aggregated(old(self).nodes@),
            0 < node < old(self).nodes@.len(),
            reachable(old(self).nodes@, node as int),
            is_dir == old(self).nodes@[node as int].is_dir,
        ensures
            nodes_wf(final(self).nodes@),
            aggregated(final(self).nodes@),
            final(self).nodes@.len() == old(self).nodes@.len(),
            forall|k: int|
                0 <= k < old(self).nodes@.len() ==> (#[trigger] final(self).nodes@[k]).name == old(self).nodes@[k].name && final(self).nodes@[k].parent == old(self).nodes@[k].parent
                    && final(self).nodes@[k].is_dir == old(self).nodes@[k].is_dir && final(self).nodes@[k].is_temp == old(self).nodes@[k].is_temp,
            forall|k: int|
                0 <= k < old(self).nodes@.len() && k != old(self).nodes@[node as int].parent as int
                    && k != node ==> (#[trigger] final(self).nodes@[k]).children == old(self).nodes@[k].children,
            !is_dir ==> final(self).nodes@[node as int].children == old(self).nodes@[node as int].children,
            is_dir ==> final(self).nodes@[node as int].children@ == Seq::<usize>::empty(),
            forall|c: usize|
                #[trigger] final(self).nodes@[old(self).nodes@[node as int].parent as int].children@.contains(c) <==> (old(self).nodes@[old(self).nodes@[node as int].parent as int].children@.contains(c) && c
                    != node),
            final(self).nodes@[old(self).nodes@[node as int].parent as int].children@.len() == old(self).nodes@[old(self).nodes@[node as int].parent as int].children@.len() - 1,
            final(self).nodes@[old(self).nodes@[node as int].parent as int].children@ == old(self).nodes@[old(self).nodes@[node as int].parent as int].children@.remove(
                child_slot(
                    old(self).nodes@[old(self).nodes@[node as int].parent as int].children@,
                    node,
                ),
            ),
            forall|k: int|
                0 <= k < old(self).nodes@.len() ==> (#[trigger] final(self).nodes@[k]).size as int
                    == old(self).nodes@[k].size - (if chain_reaches(
                    parents_of(old(self).nodes@),
                    old(self).nodes@[node as int].parent as int,
                    k,
                ) {
                    old(self).nodes@[node as int].size as int
                } else {
                    0int
                }),
            !reachable(final(self).nodes@, node as int),
    {
        let ghost t0 = self.nodes@;
        let ghost ps = parents_of(t0);
        let ln = self.nodes.len();
        let p = self.nodes[node].parent;
        let s = self.nodes[node].size;
        let n = self.nodes[p].children.len();
        let mut idx: usize = 0;
        while idx < n && self.nodes[p].children[idx] != node
            invariant
                self.nodes@ == t0,
                n == t0[p as int].children@.len(),
                idx <= n,
                forall|j: int| 0 <= j < idx ==> (#[trigger] t0[p as int].children@[j]) != node,
            decreases n - idx,
        {
            idx += 1;
        }
        proof {
            assert(t0[p as int].children@.contains(node));
            if idx >= n {
                let w = choose|w: int|
                    0 <= w < t0[p as int].children@.len() && t0[p as int].children@[w] == node;
                assert(t0[p as int].children@[w] != node);
            }
        }
        let _removed = self.nodes[p].children.remove(idx);
        let ghost t1 = self.nodes@;
        proof {
            assert(children_ok(t0, p as int));
            // the removed link takes the entry's size out of the
            // parent's children sum, leaving the surplus at the parent.
            lemma_list_sum_remove(t0, t0[p as int].children@, idx as int);
            lemma_list_sum_congruence(t0, t1, t1[p as int].children@);
            assert(t1[p as int].children@ =~= t0[p as int].children@.remove(idx as int));
            assert(reachable(t0, p as int));
            assert(t0[p as int].is_dir);
            assert(children_sum(t1, p as int) == children_sum(t0, p as int) - s);
            // the parent stays attached: its own ancestor links are not
            // the one removed.
            assert forall|d: int|
                0 <= d < t1.len() && chain_reaches(parents_of(t1), p as int, d) && d != p as int
                    implies (#[trigger] t1[d].children) == t0[d].children by {
                assert(parents_of(t1) =~= ps);
                lemma_chain_below(ps, p as int, d);
            }
            assert(parents_of(t1) =~= ps);
            lemma_reachable_same_links(t1, t0, p as int);
            // every other attached directory keeps its balance; what is
            // attached afterwards was attached before.
            assert forall|k: int|
                0 <= k < t1.len() && k != p as int && t1[k].is_dir && reachable(t1, k) implies (
            #[trigger] t1[k].size) as int == children_sum(t1, k) by {
                assert(forall|j: int, c: usize|
                    0 <= j < t1.len() && #[trigger] t1[j].children@.contains(c) ==> t0[
                    j].children@.contains(c));
                lemma_reachable_monotone(t0, t1, k);
                assert(children_ok(t0, k));
                lemma_list_sum_congruence(t0, t1, t1[k].children@);
            }
            // each ancestor can give up the entry's size.
            assert forall|d: int|
                0 <= d < t1.len() && chain_reaches(parents_of(t1), p as int, d) implies (
            #[trigger] t1[d].size) >= s by {
                assert(parents_of(t1) =~= ps);
                assert(chain_reaches(ps, node as int, d));
                lemma_ancestor_size_dominates(t0, node as int, d);
            }
            assert forall|k: int| 0 <= k < t1.len() implies children_ok(t1, k) by {
                assert(children_ok(t0, k));
                if k == p as int {
                    let l0 = t0[p as int].children@;
                    let l1 = t1[p as int].children@;
                    assert(l1 =~= l0.remove(idx as int));
                    assert(forall|j: int|
                        0 <= j < l1.len() ==> l1[j] == (if j < idx {
                            l0[j]
                        } else {
                            l0[j + 1]
                        }));
                }
            }
            assert(reachable(t1, p as int));
        }
        shrink_size(&mut self.nodes, p, s);
        let ghost t2 = self.nodes@;
        if is_dir {
            self.nodes[node].children = Vec::new();
        }
        proof {
            let tf = self.nodes@;
            // attachment after the patch implies attachment before it,
            // and the removed entry itself is detached.
            assert(parents_of(t2) =~= ps);
            assert(parents_of(tf) =~= ps);
            assert forall|k: int| 0 <= k < tf.len() implies children_ok(tf, k) by {
                assert(children_ok(t1, k));
            }
            assert forall|k: int|
                0 <= k < tf.len() && tf[k].is_dir && reachable(tf, k) implies (
            #[trigger] tf[k].size) as int == children_sum(tf, k) by {
                assert(forall|j: int, c: usize|
                    0 <= j < t2.len() && #[trigger] tf[j].children@.contains(c) ==> t2[
                    j].children@.contains(c));
                lemma_reachable_monotone(t2, tf, k);
                assert(reachable(t2, k) == reachable(t1, k)) by {
                    lemma_reachable_same_links(t2, t1, k);
                }
                if k == node {
                    assert(!t1[p as int].children@.contains(node));
                    assert(!reachable(t1, node as int));
                }
                assert(children_ok(t1, k));
                lemma_list_sum_congruence(t2, tf, tf[k].children@);
            }
            assert(!tf[p as int].children@.contains(node));
            assert(!reachable(tf, node as int));
            // the scan found the unique slot holding the entry, so the
            // surviving list is exactly the old one with that slot gone
            assert(child_slot(t0[p as int].children@, node) == idx as int) by {
                let l0 = t0[p as int].children@;
                assert(0 <= idx < l0.len() && l0[idx as int] == node);
                let j0 = child_slot(l0, node);
                assert(0 <= j0 < l0.len() && l0[j0] == node);
                assert(children_ok(t0, p as int));
            }
            assert(tf[p as int].children@ == t0[p as int].children@.remove(idx as int));
            assert forall|c: usize| #[trigger] tf[p as int].children@.contains(c) <==> (t0[
                p as int].children@.contains(c) && c != node) by {
                assert(children_ok(t0, p as int));
                let l0 = t0[p as int].children@;
                let l1 = l0.remove(idx as int);
                if l1.contains(c) {
                    let w = choose|w: int| 0 <= w < l1.len() && l1[w] == c;
                    if w < idx {
                        assert(l0[w] == c);
                    } else {
                        assert(l0[w + 1] == c);
                    }
                }
                if l0.contains(c) && c != node {
                    let w = choose|w: int| 0 <= w < l0.len() && l0[w] == c;
                    if w < idx {
                        assert(l1[w] == c);
                    } else {
                        assert(w > idx);
                        assert(l1[w - 1] == c);
                    }
                }
            }
        }
    }
}

} // verus!
