//! The interactive browser's state machine: a navigation stack and
//! selection cursor over the directory tree, a sort order, confirmation
//! flags, and a single-flight guard over mutating operations.
//!
//! The event loop around it owns the terminal and the background
//! workers: it translates input into calls on `App`, performs the
//! deletions and cleans that `App` hands back as requests, and reports
//! their outcomes through `tick`.  While a worker runs, navigation and
//! new mutating requests are rejected and only redrawing continues; the
//! tree is patched or rebuilt only after an outcome arrives, so no lock
//! guards it.

use vstd::prelude::*;
use vstd::string::*;
use crate::patterns::PatternMatcher;
use crate::tree::{
    DirEntry, DirTree, aggregated, chain_reaches, children_ok, dotdot_image, entry_image,
    lemma_chain_below, lemma_chain_trans, lemma_reachable_same_links, listing_of, name_le,
    nodes_wf, parents_of, reachable, size_le, sort_by_name, sort_by_size, views_of, TreeNode,
};
use crate::text::str_eq;

verus! {

/// The listing order: by size (the default) or by name.
#[derive(Debug, Clone, Copy, PartialEq, Eq, Structural)]
pub enum SortMode {
    Size,
    Name,
}

/// A single-entry deletion in flight on a background worker.
pub struct DeleteState {
    pub node: usize,
    pub entry_name: String,
    pub is_dir: bool,
    pub entry_size: u64,
}

/// A subtree clean in flight on a background worker, rooted at a node.
pub struct CleanState {
    pub node: usize,
}

/// The single-flight guard: at most one mutating operation runs at a
/// time.
pub enum Busy {
    Idle,
    Deleting(DeleteState),
    Cleaning(CleanState),
}

/// A structured status line; the renderer formats it.
pub enum StatusMessage {
    Deleted { name: String, size: u64 },
    DeleteFailed { error: String },
    Cleaned { dirs: usize, files: usize, bytes: u64 },
    CleanFailed { error: String },
    Refreshed,
}

/// What a finished background worker reported.
pub enum WorkerReport {
    Pending,
    DeleteDone { ok: bool, error: String },
    CleanDone { dirs: usize, files: usize, bytes: u64 },
    CleanFailed { error: String },
}

/// The row is the listing's synthetic parent-navigation row of `cur`.
pub open spec fn dotdot_row(t: Seq<TreeNode>, cur: int, e: DirEntry) -> bool {
    &&& e.node == t[cur].parent
    &&& e.name@ == ".."@
    &&& e.size == 0
    &&& e.is_dir
    &&& !e.is_temp
}

/// The row shows one attached child of `cur`, with that child's
/// recorded name, size, type and mark.
pub open spec fn child_row(t: Seq<TreeNode>, cur: int, e: DirEntry) -> bool {
    &&& 0 < e.node < t.len()
    &&& t[e.node as int].parent as int == cur
    &&& t[cur].children@.contains(e.node)
    &&& e.name@ == t[e.node as int].name@
    &&& e.size == t[e.node as int].size
    &&& e.is_dir == t[e.node as int].is_dir
    &&& e.is_temp == t[e.node as int].is_temp
}

pub open spec fn valid_row(t: Seq<TreeNode>, cur: int, e: DirEntry) -> bool {
    dotdot_row(t, cur, e) || child_row(t, cur, e)
}

/// Any sequence of rows whose images form the listing of `cur` holds
/// only valid rows.
pub proof fn lemma_rows_valid(t: Seq<TreeNode>, cur: int, rows: Seq<DirEntry>)
    requires
        nodes_wf(t),
        0 <= cur < t.len(),
        views_of(rows).to_multiset() == listing_of(t, cur).to_multiset(),
    ensures
        forall|i: int| 0 <= i < rows.len() ==> valid_row(t, cur, #[trigger] rows[i]),
{
    broadcast use vstd::seq_lib::group_to_multiset_ensures;

    let listing = listing_of(t, cur);
    assert forall|i: int| 0 <= i < rows.len() implies valid_row(t, cur, #[trigger] rows[i]) by {
        let v = rows[i]@;
        assert(views_of(rows)[i] == v);
        assert(views_of(rows).contains(v));
        assert(views_of(rows).to_multiset().count(v) > 0);
        assert(listing.to_multiset().count(v) > 0);
        assert(listing.contains(v));
        let j = choose|j: int| 0 <= j < listing.len() && listing[j] == v;
        assert(children_ok(t, cur));
        if cur != 0 && j == 0 {
            assert(v == dotdot_image(t, cur));
        } else {
            let off: int = if cur == 0 {
                0
            } else {
                1
            };
            assert(v == entry_image(t, t[cur].children@[j - off] as int));
            assert(t[cur].children@.contains(t[cur].children@[j - off]));
        }
    }
}

/// The navigation stack lists the current node's proper ancestors,
/// nearest last, each an attached directory.
pub open spec fn stack_ok(t: Seq<TreeNode>, stack: Seq<usize>, current: usize) -> bool {
    &&& forall|i: int|
        0 <= i < stack.len() ==> ((#[trigger] stack[i]) as int) < t.len() && t[
            stack[i] as int].is_dir && reachable(t, stack[i] as int)
    &&& forall|i: int|
        0 <= i < stack.len() - 1 ==> #[trigger] chain_reaches(
            parents_of(t),
            stack[i + 1] as int,
            stack[i] as int,
        ) && stack[i + 1] != stack[i]
    &&& (stack.len() > 0 ==> chain_reaches(
        parents_of(t),
        current as int,
        stack[stack.len() - 1] as int,
    ) && stack[stack.len() - 1] != current)
}

/// Sum of the rows' displayed sizes.
pub open spec fn rows_size_sum(s: Seq<DirEntry>) -> int
    decreases s.len(),
{
    if s.len() == 0 {
        0
    } else {
        rows_size_sum(s.drop_last()) + s.last().size as int
    }
}

/// The cursor rule after a reload that tries to keep a named row: the
/// first shown row carrying the name when one is shown, else the top.
pub open spec fn cursor_on_named(rows: Seq<DirEntry>, selected: usize, name: Seq<char>) -> bool {
    if exists|i: int| 0 <= i < rows.len() && (#[trigger] rows[i]).name@ == name {
        &&& (selected as int) < rows.len()
        &&& rows[selected as int].name@ == name
        &&& forall|j: int| 0 <= j < selected ==> (#[trigger] rows[j]).name@ != name
    } else {
        selected == 0
    }
}

/// The in-flight deletion targets a row of the current listing.
pub open spec fn delete_target_ok(t: Seq<TreeNode>, cur: usize, st: DeleteState) -> bool {
    &&& 0 < st.node < t.len()
    &&& t[st.node as int].parent == cur
    &&& t[cur as int].children@.contains(st.node)
    &&& st.is_dir == t[st.node as int].is_dir
    &&& st.entry_size == t[st.node as int].size
}

/// The browser state.  `current` and the stack name tree nodes; the
/// entries are the rows shown for `current`, in the current sort order.
pub struct App {
    pub current: usize,
    pub path_stack: Vec<usize>,
    pub entries: Vec<DirEntry>,
    pub selected: usize,
    pub scroll_offset: usize,
    pub sort_mode: SortMode,
    pub confirm_delete: bool,
    pub confirm_clean: bool,
    pub status: Option<StatusMessage>,
    pub total_size: u64,
    pub matcher: PatternMatcher,
    pub tree: Option<DirTree>,
    pub busy: Busy,
    pub last_entered_folder: Option<String>,
    pub needs_rebuild: bool,
}

impl App {
    /// The rows are sorted by the given mode.
    pub open spec fn rows_sorted(s: Seq<DirEntry>, mode: SortMode) -> bool {
        match mode {
            SortMode::Size => forall|i: int, j: int|
                0 <= i < j < s.len() ==> size_le(s[i], s[j]),
            SortMode::Name => forall|i: int, j: int|
                0 <= i < j < s.len() ==> name_le(s[i], s[j]),
        }
    }

    /// The tree-side invariant: the installed tree is well-formed and
    /// aggregated, the current node and the stack are attached
    /// directories, and an in-flight deletion targets an attached child
    /// of the current node.
    pub open spec fn core_inv(&self) -> bool {
        match self.tree {
            Option::Some(tree) => {
                let t = tree.nodes@;
                &&& nodes_wf(t)
                &&& aggregated(t)
                &&& (self.current as int) < t.len()
                &&& t[self.current as int].is_dir
                &&& reachable(t, self.current as int)
                &&& stack_ok(t, self.path_stack@, self.current)
                &&& match self.busy {
                    Busy::Deleting(st) => delete_target_ok(t, self.current, st),
                    _ => true,
                }
            },
            Option::None => {
                &&& self.path_stack@.len() == 0
                &&& self.busy is Idle
            },
        }
    }

    /// The browser's invariant: the tree side, plus: every shown row is
    /// a row of the current listing and the cursor is in bounds.
    pub open spec fn inv(&self) -> bool {
        &&& self.core_inv()
        &&& (self.entries@.len() == 0 ==> self.selected == 0)
        &&& (self.entries@.len() > 0 ==> (self.selected as int) < self.entries@.len())
        &&& match self.tree {
            Option::Some(tree) => forall|i: int|
                0 <= i < self.entries@.len() ==> valid_row(
                    tree.nodes@,
                    self.current as int,
                    #[trigger] self.entries@[i],
                ),
            Option::None => self.entries@.len() == 0,
        }
    }

    /// A browser with no tree yet.
    pub fn new(matcher: PatternMatcher) -> (r: App)
        ensures
            r.inv(),
            r.tree is None,
            r.current == 0,
            r.path_stack@.len() == 0,
            r.entries@.len() == 0,
            r.selected == 0,
            r.scroll_offset == 0,
            r.sort_mode == SortMode::Size,
            !r.confirm_delete,
            !r.confirm_clean,
            r.status is None,
            r.total_size == 0,
            r.busy is Idle,
            r.last_entered_folder is None,
            !r.needs_rebuild,
    {
        App {
            current: 0,
            path_stack: Vec::new(),
            entries: Vec::new(),
            selected: 0,
            scroll_offset: 0,
            sort_mode: SortMode::Size,
            confirm_delete: false,
            confirm_clean: false,
            status: Option::None,
            total_size: 0,
            matcher,
            tree: Option::None,
            busy: Busy::Idle,
            last_entered_folder: Option::None,
            needs_rebuild: false,
        }
    }

    /// A browser over a freshly built tree, showing the root's listing.
    pub fn new_with_tree(matcher: PatternMatcher, tree: DirTree) -> (r: App)
        requires
            nodes_wf(tree.nodes@),
            aggregated(tree.nodes@),
        ensures
            r.inv(),
            r.tree == Option::Some(tree),
            r.current == 0,
            r.path_stack@.len() == 0,
            r.busy is Idle,
            r.sort_mode == SortMode::Size,
            views_of(r.entries@).to_multiset() == listing_of(tree.nodes@, 0).to_multiset(),
            App::rows_sorted(r.entries@, SortMode::Size),
            r.selected == 0,
            r.scroll_offset == 0,
            r.total_size == crate::deleter::clamp64(rows_size_sum(r.entries@)),
            !r.confirm_delete,
            !r.confirm_clean,
            r.status is None,
            !r.needs_rebuild,
    {
        let mut app = App::new(matcher);
        app.tree = Option::Some(tree);
        app.load_current_dir();
        app
    }

    /// Is a mutating operation in flight?
    pub fn is_busy(&self) -> (r: bool)
        ensures
            r == !(self.busy is Idle),
    {
        match self.busy {
            Busy::Idle => false,
            _ => true,
        }
    }

    /// Is a single-entry deletion in flight?
    pub fn is_deleting(&self) -> (r: bool)
        ensures
            r == (self.busy is Deleting),
    {
        match self.busy {
            Busy::Deleting(_) => true,
            _ => false,
        }
    }

    /// Is a subtree clean in flight?
    pub fn is_cleaning(&self) -> (r: bool)
        ensures
            r == (self.busy is Cleaning),
    {
        match self.busy {
            Busy::Cleaning(_) => true,
            _ => false,
        }
    }

    /// Re-sort the shown rows by the current mode.
    fn apply_sort(&mut self)
        ensures
            views_of(final(self).entries@).to_multiset() == views_of(
                old(self).entries@,
            ).to_multiset(),
            final(self).entries@.len() == old(self).entries@.len(),
            App::rows_sorted(final(self).entries@, old(self).sort_mode),
            *final(self) == (App { entries: final(self).entries, ..*old(self) }),
    {
        match self.sort_mode {
            SortMode::Size => sort_by_size(&mut self.entries),
            SortMode::Name => sort_by_name(&mut self.entries),
        }
    }

    /// Sum the shown rows' sizes, saturating.
    fn sum_rows(entries: &Vec<DirEntry>) -> (r: u64)
        ensures
            r == crate::deleter::clamp64(rows_size_sum(entries@)),
    {
        let mut total: u64 = 0;
        let mut i: usize = 0;
        let n = entries.len();
        while i < n
            invariant
                n == entries@.len(),
                i <= n,
                total == crate::deleter::clamp64(rows_size_sum(entries@.subrange(0, i as int))),
            decreases n - i,
        {
            proof {
                assert(entries@.subrange(0, i + 1).drop_last() =~= entries@.subrange(0, i as int));
                assert(entries@.subrange(0, i + 1).last() == entries@[i as int]);
                lemma_rows_sum_nonneg(entries@.subrange(0, i as int));
            }
            let s = entries[i].size;
            if s <= u64::MAX - total {
                total = total + s;
            } else {
                total = u64::MAX;
            }
            i += 1;
        }
        proof {
            assert(entries@.subrange(0, n as int) =~= entries@);
        }
        total
    }

    /// Load the current node's listing: fetch the rows, sort them by the
    /// current mode, recompute the total, and place the cursor — on the
    /// first row with the given name when one is shown, else at the top.
    /// Pending confirmations are dropped.
    fn load_current_dir_with_selection(&mut self, select_name: Option<&String>)
        requires
            old(self).core_inv(),
            old(self).tree is Some,
        ensures
            final(self).inv(),
            final(self).tree == old(self).tree,
            final(self).current == old(self).current,
            final(self).path_stack == old(self).path_stack,
            final(self).busy == old(self).busy,
            final(self).sort_mode == old(self).sort_mode,
            final(self).status == old(self).status,
            final(self).needs_rebuild == old(self).needs_rebuild,
            final(self).last_entered_folder == old(self).last_entered_folder,
            views_of(final(self).entries@).to_multiset() == listing_of(
                old(self).tree->Some_0.nodes@,
                old(self).current as int,
            ).to_multiset(),
            App::rows_sorted(final(self).entries@, old(self).sort_mode),
            final(self).total_size == crate::deleter::clamp64(
                rows_size_sum(final(self).entries@),
            ),
            final(self).scroll_offset == 0,
            !final(self).confirm_delete,
            !final(self).confirm_clean,
            match select_name {
                Option::Some(name) => cursor_on_named(
                    final(self).entries@,
                    final(self).selected,
                    name@,
                ),
                Option::None => final(self).selected == 0,
            },
    {
        let ghost t = self.tree->Some_0.nodes@;
        let rows = match &self.tree {
            Option::Some(tree) => tree.get_children(self.current),
            Option::None => Vec::new(),
        };
        self.entries = rows;
        self.apply_sort();
        self.total_size = App::sum_rows(&self.entries);
        let mut sel: usize = 0;
        match select_name {
            Option::Some(name) => {
                let n = self.entries.len();
                let mut i: usize = 0;
                let mut found = false;
                while i < n && !found
                    invariant
                        n == self.entries@.len(),
                        i <= n,
                        !found ==> sel == 0,
                        !found ==> forall|j: int|
                            0 <= j < i ==> (#[trigger] self.entries@[j]).name@ != name@,
                        found ==> (sel as int) < n && self.entries@[sel as int].name@ == name@
                            && forall|j: int|
                            0 <= j < sel ==> (#[trigger] self.entries@[j]).name@ != name@,
                    decreases n - i + (if found {
                        0int
                    } else {
                        1int
                    }),
                {
                    if str_eq(self.entries[i].name.as_str(), name.as_str()) {
                        sel = i;
                        found = true;
                    } else {
                        i += 1;
                    }
                }
            },
            Option::None => {},
        }
        self.selected = sel;
        self.scroll_offset = 0;
        self.confirm_delete = false;
        self.confirm_clean = false;
        proof {
            lemma_rows_valid(t, self.current as int, self.entries@);
        }
    }

    /// Load the current node's listing with the cursor at the top.
    fn load_current_dir(&mut self)
        requires
            old(self).core_inv(),
            old(self).tree is Some,
        ensures
            final(self).inv(),
            final(self).tree == old(self).tree,
            final(self).current == old(self).current,
            final(self).path_stack == old(self).path_stack,
            final(self).busy == old(self).busy,
            final(self).sort_mode == old(self).sort_mode,
            final(self).selected == 0,
            final(self).scroll_offset == 0,
            !final(self).confirm_delete,
            !final(self).confirm_clean,
            views_of(final(self).entries@).to_multiset() == listing_of(
                old(self).tree->Some_0.nodes@,
                old(self).current as int,
            ).to_multiset(),
            App::rows_sorted(final(self).entries@, old(self).sort_mode),
            final(self).needs_rebuild == old(self).needs_rebuild,
            final(self).status == old(self).status,
            final(self).last_entered_folder == old(self).last_entered_folder,
            final(self).total_size == crate::deleter::clamp64(
                rows_size_sum(final(self).entries@),
            ),
    {
        self.load_current_dir_with_selection(Option::None);
    }

    /// Move the cursor one row up; any pending confirmation is dropped.
    pub fn move_up(&mut self)
        requires
            old(self).inv(),
        ensures
            final(self).inv(),
            final(self).selected == (if old(self).selected > 0 {
                (old(self).selected - 1) as usize
            } else {
                0usize
            }),
            !final(self).confirm_delete,
            !final(self).confirm_clean,
            *final(self) == (App {
                selected: final(self).selected,
                confirm_delete: false,
                confirm_clean: false,
                ..*old(self)
            }),
    {
        if self.selected > 0 {
            self.selected = self.selected - 1;
        }
        self.confirm_delete = false;
        self.confirm_clean = false;
    }

    /// Move the cursor one row down, staying in bounds; any pending
    /// confirmation is dropped.
    pub fn move_down(&mut self)
        requires
            old(self).inv(),
        ensures
            final(self).inv(),
            final(self).selected == (if old(self).selected + 1 < old(self).entries@.len() {
                (old(self).selected + 1) as usize
            } else {
                old(self).selected
            }),
            !final(self).confirm_delete,
            !final(self).confirm_clean,
            *final(self) == (App {
                selected: final(self).selected,
                confirm_delete: false,
                confirm_clean: false,
                ..*old(self)
            }),
    {
        let n = self.entries.len();
        if n > 0 && self.selected < n - 1 {
            self.selected = self.selected + 1;
        }
        self.confirm_delete = false;
        self.confirm_clean = false;
    }

    /// Jump to the first row.
    pub fn go_top(&mut self)
        requires
            old(self).inv(),
        ensures
            final(self).inv(),
            *final(self) == (App {
                selected: 0,
                scroll_offset: 0,
                confirm_delete: false,
                confirm_clean: false,
                ..*old(self)
            }),
    {
        self.selected = 0;
        self.scroll_offset = 0;
        self.confirm_delete = false;
        self.confirm_clean = false;
    }

    /// Jump to the last row.
    pub fn go_bottom(&mut self)
        requires
            old(self).inv(),
        ensures
            final(self).inv(),
            final(self).selected == (if old(self).entries@.len() > 0 {
                (old(self).entries@.len() - 1) as usize
            } else {
                0usize
            }),
            *final(self) == (App {
                selected: final(self).selected,
                confirm_delete: false,
                confirm_clean: false,
                ..*old(self)
            }),
    {
        let n = self.entries.len();
        if n > 0 {
            self.selected = n - 1;
        } else {
            self.selected = 0;
        }
        self.confirm_delete = false;
        self.confirm_clean = false;
    }

    /// Flip the sort order and re-sort the shown rows.
    pub fn toggle_sort(&mut self)
        requires
            old(self).inv(),
        ensures
            final(self).inv(),
            final(self).sort_mode == (match old(self).sort_mode {
                SortMode::Size => SortMode::Name,
                SortMode::Name => SortMode::Size,
            }),
            views_of(final(self).entries@).to_multiset() == views_of(
                old(self).entries@,
            ).to_multiset(),
            App::rows_sorted(final(self).entries@, final(self).sort_mode),
            *final(self) == (App {
                sort_mode: final(self).sort_mode,
                entries: final(self).entries,
                ..*old(self)
            }),
    {
        self.sort_mode = match self.sort_mode {
            SortMode::Size => SortMode::Name,
            SortMode::Name => SortMode::Size,
        };
        let ghost mid = *self;
        self.apply_sort();
        proof {
            lemma_rows_multiset_valid(mid, *self);
        }
    }
}

proof fn lemma_rows_sum_nonneg(s: Seq<DirEntry>)
    ensures
        rows_size_sum(s) >= 0,
    decreases s.len(),
{
    if s.len() > 0 {
        lemma_rows_sum_nonneg(s.drop_last());
    }
}

/// Rearranged rows stay valid: validity reads each row alone, and view
/// multiset equality keeps every shown row's image among the old ones.
proof fn lemma_rows_multiset_valid(pre: App, post: App)
    requires
        pre.inv(),
        views_of(post.entries@).to_multiset() == views_of(pre.entries@).to_multiset(),
        post.tree == pre.tree,
        post.current == pre.current,
    ensures
        forall|i: int|
            0 <= i < post.entries@.len() ==> (pre.tree is Some ==> valid_row(
                pre.tree->Some_0.nodes@,
                pre.current as int,
                #[trigger] post.entries@[i],
            )),
{
    broadcast use vstd::seq_lib::group_to_multiset_ensures;

    if pre.tree is Some {
        let t = pre.tree->Some_0.nodes@;
        assert forall|i: int| 0 <= i < post.entries@.len() implies valid_row(
            t,
            pre.current as int,
            #[trigger] post.entries@[i],
        ) by {
            let v = post.entries@[i]@;
            assert(views_of(post.entries@)[i] == v);
            assert(views_of(post.entries@).contains(v));
            assert(views_of(post.entries@).to_multiset().count(v) > 0);
            assert(views_of(pre.entries@).contains(v));
            let j = choose|j: int|
                0 <= j < views_of(pre.entries@).len() && views_of(pre.entries@)[j] == v;
            assert(valid_row(t, pre.current as int, pre.entries@[j]));
            assert(pre.entries@[j]@ == v);
            lemma_row_valid_by_view(t, pre.current as int, pre.entries@[j], post.entries@[i]);
        }
    }
}

/// Row validity depends only on a row's image.
proof fn lemma_row_valid_by_view(t: Seq<TreeNode>, cur: int, a: DirEntry, b: DirEntry)
    requires
        valid_row(t, cur, a),
        a@ == b@,
    ensures
        valid_row(t, cur, b),
{
}

/// A deletion for a background worker: the entry's node and type.
pub struct DeleteRequest {
    pub node: usize,
    pub is_dir: bool,
}

/// A subtree clean for a background worker, rooted at a node.
pub struct CleanRequest {
    pub node: usize,
}

impl App {
    /// Descend into the selected directory: push the current node and
    /// load the child's listing.  Selecting the parent-navigation row
    /// goes back instead; files, an empty listing and a busy browser are
    /// no-ops.
    pub fn enter(&mut self)
        requires
            old(self).inv(),
        ensures
            final(self).inv(),
            !(old(self).busy is Idle) ==> *final(self) == *old(self),
            final(self).busy == old(self).busy,
            final(self).tree == old(self).tree,
            final(self).sort_mode == old(self).sort_mode,
            (old(self).busy is Idle && old(self).entries@.len() > 0 && old(self).entries@[old(self).selected as int].is_dir && old(self).entries@[old(self).selected as int].name@
                != ".."@) ==> {
                &&& final(self).current == old(self).entries@[old(self).selected as int].node
                &&& final(self).path_stack@ == old(self).path_stack@.push(old(self).current)
                &&& final(self).last_entered_folder matches Option::Some(n) && n@ == old(self).entries@[old(self).selected as int].name@
                &&& views_of(final(self).entries@).to_multiset() == listing_of(
                    old(self).tree->Some_0.nodes@,
                    old(self).entries@[old(self).selected as int].node as int,
                ).to_multiset()
                &&& App::rows_sorted(final(self).entries@, old(self).sort_mode)
                &&& final(self).selected == 0
                &&& !final(self).confirm_delete
                &&& !final(self).confirm_clean
            },
            (old(self).busy is Idle && old(self).entries@.len() > 0 && old(self).entries@[old(self).selected as int].is_dir && old(self).entries@[old(self).selected as int].name@
                == ".."@ && old(self).path_stack@.len() > 0) ==> {
                &&& final(self).current == old(self).path_stack@.last()
                &&& final(self).path_stack@ == old(self).path_stack@.drop_last()
                &&& views_of(final(self).entries@).to_multiset() == listing_of(
                    old(self).tree->Some_0.nodes@,
                    old(self).path_stack@.last() as int,
                ).to_multiset()
                &&& cursor_on_named(
                    final(self).entries@,
                    final(self).selected,
                    old(self).tree->Some_0.nodes@[old(self).current as int].name@,
                )
                &&& !final(self).confirm_delete
                &&& !final(self).confirm_clean
            },
            (old(self).busy is Idle && old(self).entries@.len() > 0 && old(self).entries@[old(self).selected as int].is_dir && old(self).entries@[old(self).selected as int].name@
                == ".."@ && old(self).path_stack@.len() == 0) ==> {
                &&& final(self).current == old(self).current
                &&& final(self).path_stack@ == old(self).path_stack@
                &&& final(self).entries == old(self).entries
                &&& final(self).selected == old(self).selected
                &&& !final(self).confirm_delete
                &&& !final(self).confirm_clean
            },
            (old(self).busy is Idle && old(self).entries@.len() > 0 && !old(self).entries@[old(self).selected as int].is_dir) ==> *final(self) == *old(self),
            (old(self).busy is Idle && old(self).entries@.len() == 0) ==> *final(self) == *old(self),
    {
        if self.is_busy() {
            return ;
        }
        let n = self.entries.len();
        if n == 0 {
            return ;
        }
        let ghost t = self.tree->Some_0.nodes@;
        let is_dir = self.entries[self.selected].is_dir;
        if !is_dir {
            return ;
        }
        if str_eq(self.entries[self.selected].name.as_str(), "..") {
            self.go_back();
            return ;
        }
        let node = self.entries[self.selected].node;
        let name = self.entries[self.selected].name.clone();
        proof {
            assert(valid_row(t, self.current as int, self.entries@[self.selected as int]));
            assert(child_row(t, self.current as int, self.entries@[self.selected as int]));
            assert(reachable(t, node as int));
            assert(parents_of(t)[node as int] == t[node as int].parent);
            assert(chain_reaches(parents_of(t), self.current as int, self.current as int));
            assert(chain_reaches(parents_of(t), node as int, self.current as int));
            assert forall|i: int|
                0 <= i < self.path_stack@.len() - 1 implies chain_reaches(
                parents_of(t),
                (#[trigger] self.path_stack@.push(self.current)[i + 1]) as int,
                self.path_stack@.push(self.current)[i] as int,
            ) && self.path_stack@.push(self.current)[i + 1] != self.path_stack@.push(
                self.current,
            )[i] by {
                assert(self.path_stack@.push(self.current)[i] == self.path_stack@[i]);
                if i + 1 < self.path_stack@.len() {
                    assert(self.path_stack@.push(self.current)[i + 1] == self.path_stack@[i + 1]);
                }
            }
            lemma_chain_below(parents_of(t), self.current as int, self.current as int);
        }
        self.last_entered_folder = Option::Some(name);
        self.path_stack.push(self.current);
        self.current = node;
        self.load_current_dir();
    }

    /// Pop the navigation stack and restore the previous directory,
    /// placing the cursor on the exited child when it is still shown.
    /// A busy browser is a no-op; with an empty stack only pending
    /// confirmations are dropped.
    pub fn go_back(&mut self)
        requires
            old(self).inv(),
        ensures
            final(self).inv(),
            !(old(self).busy is Idle) ==> *final(self) == *old(self),
            final(self).busy == old(self).busy,
            final(self).tree == old(self).tree,
            final(self).sort_mode == old(self).sort_mode,
            (old(self).busy is Idle && old(self).path_stack@.len() == 0) ==> {
                &&& final(self).path_stack@ == old(self).path_stack@
                &&& final(self).current == old(self).current
                &&& final(self).entries == old(self).entries
                &&& final(self).selected == old(self).selected
                &&& final(self).scroll_offset == old(self).scroll_offset
                &&& final(self).status == old(self).status
                &&& final(self).total_size == old(self).total_size
                &&& final(self).last_entered_folder == old(self).last_entered_folder
                &&& final(self).needs_rebuild == old(self).needs_rebuild
                &&& !final(self).confirm_delete
                &&& !final(self).confirm_clean
            },
            (old(self).busy is Idle && old(self).path_stack@.len() > 0) ==> {
                &&& final(self).current == old(self).path_stack@.last()
                &&& final(self).path_stack@ == old(self).path_stack@.drop_last()
                &&& views_of(final(self).entries@).to_multiset() == listing_of(
                    old(self).tree->Some_0.nodes@,
                    old(self).path_stack@.last() as int,
                ).to_multiset()
                &&& cursor_on_named(
                    final(self).entries@,
                    final(self).selected,
                    old(self).tree->Some_0.nodes@[old(self).current as int].name@,
                )
                &&& !final(self).confirm_delete
                &&& !final(self).confirm_clean
            },
    {
        if self.is_busy() {
            return ;
        }
        match self.path_stack.pop() {
            Option::Some(prev) => {
                let ghost t = self.tree->Some_0.nodes@;
                let select_name = match &self.tree {
                    Option::Some(tree) => Option::Some(tree.nodes[self.current].name.clone()),
                    Option::None => Option::None,
                };
                self.current = prev;
                proof {
                    let st0 = old(self).path_stack@;
                    assert(self.path_stack@ =~= st0.drop_last());
                    assert(prev == st0.last());
                    if st0.len() > 1 {
                        let k = st0.len() - 2;
                        assert(chain_reaches(parents_of(t), st0[k + 1] as int, st0[k] as int));
                        assert(st0[k + 1] != st0[k]);
                    }
                    assert forall|i: int|
                        0 <= i < self.path_stack@.len() - 1 implies #[trigger] chain_reaches(
                        parents_of(t),
                        self.path_stack@[i + 1] as int,
                        self.path_stack@[i] as int,
                    ) && self.path_stack@[i + 1] != self.path_stack@[i] by {
                        assert(self.path_stack@[i] == st0[i]);
                        assert(self.path_stack@[i + 1] == st0[i + 1]);
                        assert(chain_reaches(parents_of(t), st0[i + 1] as int, st0[i] as int));
                    }
                    assert forall|i: int|
                        0 <= i < self.path_stack@.len() implies ((#[trigger] self.path_stack@[
                    i]) as int) < t.len() && t[self.path_stack@[i] as int].is_dir && reachable(
                        t,
                        self.path_stack@[i] as int,
                    ) by {
                        assert(self.path_stack@[i] == st0[i]);
                    }
                }
                match select_name {
                    Option::Some(name) => {
                        self.load_current_dir_with_selection(Option::Some(&name));
                    },
                    Option::None => {
                        self.load_current_dir();
                    },
                }
                self.confirm_delete = false;
                self.confirm_clean = false;
            },
            Option::None => {
                self.confirm_delete = false;
                self.confirm_clean = false;
            },
        }
    }

    /// Arm or disarm the delete confirmation for the selected row; the
    /// parent-navigation row cannot be deleted.  Busy: no-op.
    pub fn toggle_delete_confirm(&mut self)
        requires
            old(self).inv(),
        ensures
            final(self).inv(),
            !(old(self).busy is Idle) ==> *final(self) == *old(self),
            (old(self).busy is Idle && old(self).entries@.len() > 0 && old(self).entries@[old(self).selected as int].name@ != ".."@) ==> *final(self) == (App {
                confirm_delete: !old(self).confirm_delete,
                confirm_clean: false,
                ..*old(self)
            }),
            (old(self).busy is Idle && old(self).entries@.len() == 0) ==> *final(self) == *old(self),
    {
        if self.is_busy() {
            return ;
        }
        if self.entries.len() > 0 {
            if !str_eq(self.entries[self.selected].name.as_str(), "..") {
                self.confirm_delete = !self.confirm_delete;
                self.confirm_clean = false;
            }
        }
    }

    /// Arm or disarm the clean confirmation for the current directory.
    /// Busy: no-op.
    pub fn toggle_clean_confirm(&mut self)
        requires
            old(self).inv(),
        ensures
            final(self).inv(),
            !(old(self).busy is Idle) ==> *final(self) == *old(self),
            (old(self).busy is Idle) ==> *final(self) == (App {
                confirm_clean: !old(self).confirm_clean,
                confirm_delete: false,
                ..*old(self)
            }),
    {
        if self.is_busy() {
            return ;
        }
        self.confirm_clean = !self.confirm_clean;
        self.confirm_delete = false;
    }

    /// Hand the selected row to a background worker for deletion and
    /// enter the delete-in-flight state.  The parent-navigation row, an
    /// empty listing and a busy browser give no request.
    pub fn delete_selected(&mut self) -> (r: Option<DeleteRequest>)
        requires
            old(self).inv(),
        ensures
            final(self).inv(),
            !(old(self).busy is Idle) ==> (*final(self) == *old(self) && r is None),
            (old(self).busy is Idle && old(self).entries@.len() > 0 && old(self).entries@[old(self).selected as int].name@ != ".."@) ==> {
                &&& r matches Option::Some(req) && req.node == old(self).entries@[old(self).selected as int].node && req.is_dir == old(self).entries@[old(self).selected as int].is_dir
                &&& final(self).busy matches Busy::Deleting(st) && st.node == old(self).entries@[old(self).selected as int].node && st.is_dir == old(self).entries@[old(self).selected as int].is_dir && st.entry_name@ == old(self).entries@[old(self).selected as int].name@ && st.entry_size == old(self).entries@[old(self).selected as int].size
                &&& !final(self).confirm_delete
                &&& final(self).tree == old(self).tree
                &&& final(self).entries == old(self).entries
                &&& final(self).current == old(self).current
            },
            (old(self).busy is Idle && (old(self).entries@.len() == 0 || old(self).entries@[old(self).selected as int].name@ == ".."@)) ==> (r is None && *final(self) == (App {
                confirm_delete: false,
                ..*old(self)
            })),
    {
        if self.is_busy() {
            return Option::None;
        }
        let n = self.entries.len();
        if n == 0 {
            self.confirm_delete = false;
            return Option::None;
        }
        let ghost t = self.tree->Some_0.nodes@;
        if str_eq(self.entries[self.selected].name.as_str(), "..") {
            self.confirm_delete = false;
            return Option::None;
        }
        proof {
            assert(valid_row(t, self.current as int, self.entries@[self.selected as int]));
            assert(child_row(t, self.current as int, self.entries@[self.selected as int]));
        }
        let e = &self.entries[self.selected];
        let st = DeleteState {
            node: e.node,
            entry_name: e.name.clone(),
            is_dir: e.is_dir,
            entry_size: e.size,
        };
        let req = DeleteRequest { node: st.node, is_dir: st.is_dir };
        proof {
            assert(delete_target_ok(t, self.current, st));
        }
        self.busy = Busy::Deleting(st);
        self.confirm_delete = false;
        Option::Some(req)
    }

    /// Hand the current directory to a background worker for a subtree
    /// clean — the scan-and-delete pipeline runs on the live filesystem,
    /// bypassing this tree — and enter the clean-in-flight state.  Busy:
    /// no request.
    pub fn clean_current(&mut self) -> (r: Option<CleanRequest>)
        requires
            old(self).inv(),
        ensures
            final(self).inv(),
            !(old(self).busy is Idle) ==> (*final(self) == *old(self) && r is None),
            (old(self).busy is Idle && old(self).tree is None) ==> (*final(self) == *old(self)
                && r is None),
            (old(self).busy is Idle && old(self).tree is Some) ==> {
                &&& r matches Option::Some(req) && req.node == old(self).current
                &&& final(self).busy matches Busy::Cleaning(st) && st.node == old(self).current
                &&& !final(self).confirm_clean
                &&& *final(self) == (App {
                    busy: final(self).busy,
                    confirm_clean: false,
                    ..*old(self)
                })
            },
    {
        if self.is_busy() {
            return Option::None;
        }
        match &self.tree {
            Option::None => {
                return Option::None;
            },
            Option::Some(_) => {},
        }
        let req = CleanRequest { node: self.current };
        self.busy = Busy::Cleaning(CleanState { node: self.current });
        self.confirm_clean = false;
        Option::Some(req)
    }
}

impl App {
    /// Merge a worker's outcome, once per redraw.  A finished deletion
    /// patches the tree in place — the entry leaves its parent's listing
    /// and every ancestor's recorded size drops by exactly the reported
    /// size — and reloads the listing with the cursor near the deleted
    /// row.  A failed deletion only surfaces a message; the tree is left
    /// untouched.  A finished clean asks for a whole rebuild, since the
    /// pipeline bypassed this tree's bookkeeping.
    pub fn tick(&mut self, report: WorkerReport)
        requires
            old(self).inv(),
            report is DeleteDone ==> old(self).busy is Deleting,
            report is CleanDone ==> old(self).busy is Cleaning,
            report is CleanFailed ==> old(self).busy is Cleaning,
        ensures
            final(self).inv(),
            report is Pending ==> *final(self) == *old(self),
            (report is DeleteDone && !report->DeleteDone_ok) ==> {
                &&& final(self).busy is Idle
                &&& final(self).tree == old(self).tree
                &&& final(self).entries == old(self).entries
                &&& final(self).current == old(self).current
                &&& final(self).status matches Option::Some(m) && (m matches
                    StatusMessage::DeleteFailed { error: e } && e@
                    == report->DeleteDone_error@)
            },
            (report is DeleteDone && report->DeleteDone_ok) ==> {
                let st = old(self).busy->Deleting_0;
                let t0 = old(self).tree->Some_0.nodes@;
                let tf = final(self).tree->Some_0.nodes@;
                &&& final(self).busy is Idle
                &&& final(self).tree is Some
                &&& final(self).current == old(self).current
                &&& tf.len() == t0.len()
                &&& nodes_wf(tf)
                &&& aggregated(tf)
                &&& !tf[old(self).current as int].children@.contains(st.node)
                &&& forall|k: int|
                    0 <= k < t0.len() ==> (#[trigger] tf[k]).size as int == t0[k].size - (
                    if chain_reaches(parents_of(t0), old(self).current as int, k) {
                        st.entry_size as int
                    } else {
                        0int
                    })
                &&& views_of(final(self).entries@).to_multiset() == listing_of(
                    tf,
                    old(self).current as int,
                ).to_multiset()
                &&& cursor_on_named(final(self).entries@, final(self).selected, st.entry_name@)
                &&& final(self).status matches Option::Some(m) && (m matches
                    StatusMessage::Deleted { name, size } && name@ == st.entry_name@ && size
                    == st.entry_size)
            },
            report is CleanDone ==> {
                &&& final(self).busy is Idle
                &&& final(self).tree == old(self).tree
                &&& final(self).entries == old(self).entries
                &&& final(self).needs_rebuild
                &&& final(self).status matches Option::Some(m) && (m matches
                    StatusMessage::Cleaned { dirs: d, files: f, bytes: b } && d
                    == report->CleanDone_dirs && f == report->CleanDone_files && b
                    == report->CleanDone_bytes)
            },
            report is CleanFailed ==> {
                &&& final(self).busy is Idle
                &&& final(self).tree == old(self).tree
                &&& final(self).entries == old(self).entries
                &&& final(self).needs_rebuild == old(self).needs_rebuild
                &&& final(self).status matches Option::Some(m) && (m matches
                    StatusMessage::CleanFailed { error: e } && e@
                    == report->CleanFailed_error@)
            },
    {
        match report {
            WorkerReport::Pending => {},
            WorkerReport::DeleteDone { ok, error } => {
                let (node, name, entry_is_dir, size) = match &self.busy {
                    Busy::Deleting(st) => (st.node, st.entry_name.clone(), st.is_dir, st.entry_size),
                    _ => vstd::pervasive::unreached(),
                };
                self.busy = Busy::Idle;
                if ok {
                    self.status = Option::Some(
                        StatusMessage::Deleted { name: name.clone(), size },
                    );
                    let ghost t0 = self.tree->Some_0.nodes@;
                    let mut held: Option<DirTree> = Option::None;
                    core::mem::swap(&mut held, &mut self.tree);
                    let mut tr = match held {
                        Option::Some(tr) => tr,
                        Option::None => vstd::pervasive::unreached(),
                    };
                    proof {
                        assert(reachable(t0, node as int));
                    }
                    tr.delete_entry(node, entry_is_dir);
                    let ghost tf = tr.nodes@;
                    self.tree = Option::Some(tr);
                    self.entries = Vec::new();
                    self.selected = 0;
                    proof {
                        assert(parents_of(tf) =~= parents_of(t0));
                        // the current node and the whole stack stay
                        // attached: only the lists of the current node
                        // and of the removed entry changed, and neither
                        // lies on a proper ancestor chain here.
                        assert forall|d: int|
                            0 <= d < tf.len() && chain_reaches(
                                parents_of(tf),
                                self.current as int,
                                d,
                            ) && d != self.current as int implies (#[trigger] tf[d].children)
                            == t0[d].children by {
                            lemma_chain_below(parents_of(tf), self.current as int, d);
                        }
                        lemma_reachable_same_links(tf, t0, self.current as int);
                        assert forall|i: int|
                            0 <= i < self.path_stack@.len() implies ((#[trigger] self.path_stack@[
                        i]) as int) < tf.len() && tf[self.path_stack@[i] as int].is_dir
                            && reachable(tf, self.path_stack@[i] as int) by {
                            let s = self.path_stack@[i] as int;
                            lemma_stack_chain(t0, self.path_stack@, self.current, i);
                            lemma_chain_below(parents_of(t0), self.current as int, s);
                            assert forall|d: int|
                                0 <= d < tf.len() && chain_reaches(parents_of(tf), s, d) && d != s
                                implies (#[trigger] tf[d].children) == t0[d].children by {
                                lemma_chain_below(parents_of(tf), s, d);
                            }
                            lemma_reachable_same_links(tf, t0, s);
                        }
                        assert forall|i: int|
                            0 <= i < self.path_stack@.len() - 1 implies #[trigger] chain_reaches(
                            parents_of(tf),
                            self.path_stack@[i + 1] as int,
                            self.path_stack@[i] as int,
                        ) && self.path_stack@[i + 1] != self.path_stack@[i] by {
                            assert(chain_reaches(
                                parents_of(t0),
                                self.path_stack@[i + 1] as int,
                                self.path_stack@[i] as int,
                            ));
                        }
                    }
                    self.load_current_dir_with_selection(Option::Some(&name));
                } else {
                    self.status = Option::Some(StatusMessage::DeleteFailed { error });
                }
            },
            WorkerReport::CleanDone { dirs, files, bytes } => {
                self.busy = Busy::Idle;
                self.status = Option::Some(StatusMessage::Cleaned { dirs, files, bytes });
                self.needs_rebuild = true;
            },
            WorkerReport::CleanFailed { error } => {
                self.busy = Busy::Idle;
                self.status = Option::Some(StatusMessage::CleanFailed { error });
            },
        }
    }

    /// Install a freshly built tree and show its root listing; any
    /// pending rebuild request is satisfied.
    pub fn install_tree(&mut self, tree: DirTree)
        requires
            old(self).inv(),
            old(self).busy is Idle,
            nodes_wf(tree.nodes@),
            aggregated(tree.nodes@),
        ensures
            final(self).inv(),
            final(self).tree == Option::Some(tree),
            final(self).current == 0,
            final(self).path_stack@.len() == 0,
            !final(self).needs_rebuild,
            final(self).busy is Idle,
            views_of(final(self).entries@).to_multiset() == listing_of(
                tree.nodes@,
                0,
            ).to_multiset(),
            App::rows_sorted(final(self).entries@, old(self).sort_mode),
            final(self).sort_mode == old(self).sort_mode,
            final(self).selected == 0,
            final(self).total_size == crate::deleter::clamp64(
                rows_size_sum(final(self).entries@),
            ),
            !final(self).confirm_delete,
            !final(self).confirm_clean,
    {
        self.tree = Option::Some(tree);
        self.current = 0;
        self.path_stack = Vec::new();
        self.entries = Vec::new();
        self.selected = 0;
        self.needs_rebuild = false;
        self.load_current_dir();
    }

    /// Install a freshly built tree, the root listing shown.  Kept under
    /// the name the builder-driven construction had.
    pub fn build_tree(&mut self, tree: DirTree)
        requires
            old(self).inv(),
            old(self).busy is Idle,
            nodes_wf(tree.nodes@),
            aggregated(tree.nodes@),
        ensures
            final(self).inv(),
            final(self).tree == Option::Some(tree),
            final(self).current == 0,
            final(self).path_stack@.len() == 0,
            !final(self).needs_rebuild,
            final(self).busy is Idle,
            views_of(final(self).entries@).to_multiset() == listing_of(
                tree.nodes@,
                0,
            ).to_multiset(),
            App::rows_sorted(final(self).entries@, old(self).sort_mode),
            final(self).sort_mode == old(self).sort_mode,
            final(self).selected == 0,
            final(self).total_size == crate::deleter::clamp64(
                rows_size_sum(final(self).entries@),
            ),
            !final(self).confirm_delete,
            !final(self).confirm_clean,
    {
        self.install_tree(tree);
    }

    /// Reload the current listing from the installed tree; without one,
    /// ask for a build.
    pub fn scan_current_dir(&mut self)
        requires
            old(self).inv(),
        ensures
            final(self).inv(),
            old(self).tree is None ==> final(self).needs_rebuild,
            old(self).tree is Some ==> views_of(final(self).entries@).to_multiset() == listing_of(
                old(self).tree->Some_0.nodes@,
                old(self).current as int,
            ).to_multiset(),
    {
        match &self.tree {
            Option::Some(_) => {
                self.load_current_dir();
            },
            Option::None => {
                self.needs_rebuild = true;
            },
        }
    }

    /// Ask for a full rebuild of the tree.  Busy: no-op.
    pub fn refresh(&mut self)
        requires
            old(self).inv(),
        ensures
            final(self).inv(),
            !(old(self).busy is Idle) ==> *final(self) == *old(self),
            (old(self).busy is Idle) ==> {
                &&& final(self).needs_rebuild
                &&& final(self).status matches Option::Some(m) && m is Refreshed
                &&& final(self).tree == old(self).tree
                &&& final(self).entries == old(self).entries
            },
    {
        if self.is_busy() {
            return ;
        }
        self.needs_rebuild = true;
        self.status = Option::Some(StatusMessage::Refreshed);
    }

    /// Drop the status line (its display time is the caller's).
    pub fn clear_status(&mut self)
        requires
            old(self).inv(),
        ensures
            final(self).inv(),
            final(self).status is None,
            *final(self) == (App { status: Option::None, ..*old(self) }),
    {
        self.status = Option::None;
    }

    /// The row under the cursor, when any row is shown.
    pub fn selected_entry(&self) -> (r: Option<&DirEntry>)
        requires
            self.inv(),
        ensures
            self.entries@.len() > 0 ==> (r matches Option::Some(e) && *e == self.entries@[
                self.selected as int]),
            self.entries@.len() == 0 ==> r is None,
    {
        if self.entries.len() > 0 {
            Option::Some(&self.entries[self.selected])
        } else {
            Option::None
        }
    }
}

/// Consecutive stack links compose: every stack element below the top
/// lies on the current node's ancestor chain.
proof fn lemma_stack_chain(t: Seq<TreeNode>, stack: Seq<usize>, current: usize, i: int)
    requires
        stack_ok(t, stack, current),
        0 <= i < stack.len(),
    ensures
        chain_reaches(parents_of(t), current as int, stack[i] as int),
    decreases stack.len() - i,
{
    if i == stack.len() - 1 {
    } else {
        lemma_stack_chain(t, stack, current, i + 1);
        assert(chain_reaches(parents_of(t), stack[i + 1] as int, stack[i] as int));
        lemma_chain_trans(
            parents_of(t),
            current as int,
            stack[i + 1] as int,
            stack[i] as int,
        );
    }
}

/// The first attached directory child of the listed nodes carrying the
/// given name.
pub open spec fn find_child(t: Seq<TreeNode>, l: Seq<usize>, name: Seq<char>) -> Option<usize>
    decreases l.len(),
{
    if l.len() == 0 {
        Option::None
    } else if t[l[0] as int].is_dir && t[l[0] as int].name@ == name {
        Option::Some(l[0])
    } else {
        find_child(t, l.drop_first(), name)
    }
}

/// Where following a name path from `cur` leads: descend into the first
/// directory child carrying each successive name, stopping at the first
/// name with no such child.
pub open spec fn resolve_walk(t: Seq<TreeNode>, cur: int, names: Seq<Seq<char>>, k: int) -> int
    decreases names.len() - k,
{
    if k < 0 || k >= names.len() {
        cur
    } else {
        match find_child(t, t[cur].children@, names[k]) {
            Option::Some(c) => resolve_walk(t, c as int, names, k + 1),
            Option::None => cur,
        }
    }
}

impl App {
    /// Install a freshly built tree and return to the directory a name
    /// path leads to — the path of the directory shown before a rebuild.
    /// From the root, descend into the first attached directory child
    /// carrying each successive name; stop at the first name with no
    /// such child and show that directory's listing.
    pub fn install_tree_at(&mut self, tree: DirTree, names: &Vec<String>)
        requires
            old(self).inv(),
            old(self).busy is Idle,
            nodes_wf(tree.nodes@),
            aggregated(tree.nodes@),
        ensures
            final(self).inv(),
            final(self).tree == Option::Some(tree),
            !final(self).needs_rebuild,
            final(self).busy is Idle,
            final(self).current as int == resolve_walk(tree.nodes@, 0, names.deep_view(), 0),
            views_of(final(self).entries@).to_multiset() == listing_of(
                tree.nodes@,
                final(self).current as int,
            ).to_multiset(),
            App::rows_sorted(final(self).entries@, old(self).sort_mode),
            final(self).sort_mode == old(self).sort_mode,
            final(self).selected == 0,
            final(self).total_size == crate::deleter::clamp64(
                rows_size_sum(final(self).entries@),
            ),
    {
        let ghost t = tree.nodes@;
        let ghost nv = names.deep_view();
        let mut cur: usize = 0;
        let mut stack: Vec<usize> = Vec::new();
        let n = names.len();
        let mut k: usize = 0;
        let mut stopped = false;
        proof {
            assert(nv.len() == names@.len());
        }
        while k < n && !stopped
            invariant
                nodes_wf(t),
                t == tree.nodes@,
                nv == names.deep_view(),
                n == names@.len(),
                nv.len() == n,
                k <= n,
                (cur as int) < t.len(),
                t[cur as int].is_dir,
                reachable(t, cur as int),
                stack_ok(t, stack@, cur),
                resolve_walk(t, 0, nv, 0) == (if stopped {
                    cur as int
                } else {
                    resolve_walk(t, cur as int, nv, k as int)
                }),
            decreases n - k + (if stopped {
                0int
            } else {
                1int
            }),
        {
            let name = &names[k];
            proof {
                assert(nv[k as int] == names@[k as int]@);
            }
            let ghost ch = t[cur as int].children@;
            let cn = tree.nodes[cur].children.len();
            let mut j: usize = 0;
            let mut found: Option<usize> = Option::None;
            proof {
                assert(ch.skip(0) =~= ch);
            }
            while j < cn && found.is_none()
                invariant
                    nodes_wf(t),
                    t == tree.nodes@,
                    (cur as int) < t.len(),
                    ch == t[cur as int].children@,
                    cn == ch.len(),
                    j <= cn,
                    found is None ==> find_child(t, ch, names@[k as int]@) == find_child(
                        t,
                        ch.skip(j as int),
                        names@[k as int]@,
                    ),
                    found matches Option::Some(c) ==> (find_child(t, ch, names@[k as int]@)
                        == Option::Some(c) && ch.contains(c) && (c as int) < t.len() && t[
                        c as int].is_dir && t[c as int].name@ == names@[k as int]@),
                    k < names@.len(),
                    name@ == names@[k as int]@,
                decreases cn - j + (if found is Some {
                    0int
                } else {
                    1int
                }),
            {
                let c = tree.nodes[cur].children[j];
                proof {
                    assert(children_ok(t, cur as int));
                    assert(ch.skip(j as int)[0] == ch[j as int]);
                }
                if tree.nodes[c].is_dir && str_eq(tree.nodes[c].name.as_str(), name.as_str()) {
                    proof {
                        assert(ch[j as int] == c);
                        assert(ch.contains(c));
                        assert(ch.skip(j as int).len() > 0);
                        assert(ch.skip(j as int)[0] == c);
                        assert(t[c as int].is_dir);
                        assert(t[c as int].name@ == (*name)@);
                        assert((*name)@ == names@[k as int]@);
                        assert(find_child(t, ch.skip(j as int), names@[k as int]@)
                            == Option::Some(c));
                    }
                    found = Option::Some(c);
                } else {
                    proof {
                        assert(ch.skip(j as int).drop_first() =~= ch.skip(j + 1));
                        assert(find_child(t, ch.skip(j as int), names@[k as int]@) == find_child(
                            t,
                            ch.skip(j + 1),
                            names@[k as int]@,
                        ));
                    }
                    j += 1;
                }
            }
            proof {
                if found is None {
                    assert(j == cn);
                    assert(ch.skip(cn as int).len() == 0);
                    assert(find_child(t, ch.skip(cn as int), names@[k as int]@) is None);
                    assert(find_child(t, ch, names@[k as int]@) is None);
                }
            }
            match found {
                Option::Some(c) => {
                    proof {
                        assert(nv[k as int] == names@[k as int]@);
                        assert(resolve_walk(t, cur as int, nv, k as int) == resolve_walk(
                            t,
                            c as int,
                            nv,
                            k + 1,
                        ));
                        assert(children_ok(t, cur as int));
                        assert(reachable(t, c as int));
                        assert(parents_of(t)[c as int] == t[c as int].parent);
                        assert(chain_reaches(parents_of(t), cur as int, cur as int));
                        assert(chain_reaches(parents_of(t), c as int, cur as int));
                        let ghost st0 = stack@;
                        assert forall|i: int|
                            0 <= i < st0.len() - 1 implies #[trigger] chain_reaches(
                            parents_of(t),
                            st0.push(cur)[i + 1] as int,
                            st0.push(cur)[i] as int,
                        ) && st0.push(cur)[i + 1] != st0.push(cur)[i] by {
                            assert(st0.push(cur)[i] == st0[i]);
                            assert(st0.push(cur)[i + 1] == st0[i + 1]);
                            assert(chain_reaches(
                                parents_of(t),
                                stack@[i + 1] as int,
                                stack@[i] as int,
                            ) && stack@[i + 1] != stack@[i]);
                        }
                        assert(c != cur);
                        lemma_chain_below(parents_of(t), cur as int, cur as int);
                    }
                    stack.push(cur);
                    cur = c;
                    k += 1;
                },
                Option::None => {
                    proof {
                        assert(nv[k as int] == names@[k as int]@);
                        assert(resolve_walk(t, cur as int, nv, k as int) == cur as int);
                    }
                    stopped = true;
                },
            }
        }
        self.tree = Option::Some(tree);
        self.current = cur;
        self.path_stack = stack;
        self.entries = Vec::new();
        self.selected = 0;
        self.needs_rebuild = false;
        self.load_current_dir();
    }
}

} // verus!
