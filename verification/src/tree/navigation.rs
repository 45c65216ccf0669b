//! Navigation over the file tree: the flat list of visible entries, the
//! selection in it, and the operations that open, close and reload parts
//! of the tree.
//!
//! Directory contents come from the caller.  An operation that must read a
//! directory it has no contents for answers `NavStep::NeedRead(dir)` and
//! leaves the navigation unchanged; the caller reads that directory, adds
//! the result to the reads it passes, and calls again.
use vstd::prelude::*;
use crate::paths::{path_eq, path_parent, opt_text, same_path, parent, path_starts_with, starts_with};
use crate::text::seq_lt;
use crate::tree::tree_node::{
    DirRead, TreeNode, cannot_read_text, entry_errors_text, failed_texts, is_fresh_node,
    loaded_children, loaded_rest, name_of, needs_load, read_len, toggle_result, dotted, from_read,
    gives_entry, read_items, lemma_loaded_children_from_read,
};
use crate::tree::visible::{
    arena_wf, changed_only_at, lemma_block_from, lemma_children_of_node, lemma_splice_from,
    lemma_visible_from_facts, lemma_visible_from_no_dup, placed_below, visible_children, visible_from,
};

verus! {

/// What reading one directory gave: whether the path is a directory, and
/// its entries (read only for a directory).
pub struct DirListing {
    pub dir: String,
    pub is_dir: bool,
    pub read: DirRead,
}

/// The outcome of a navigation operation.
pub enum NavStep<T> {
    /// The operation completed with this result.
    Done(T),
    /// The operation needs the contents of this directory; nothing changed.
    NeedRead(String),
    /// The node arena cannot hold the entries of a directory that had to be
    /// loaded; the operation stopped there.
    ArenaFull,
}

/// The navigation state.  Nodes live in an arena; `root` is the index of the
/// tree's root (always 0) and `flat_list` holds the indices of the visible
/// nodes in display order.
pub struct Navigation {
    pub nodes: Vec<TreeNode>,
    pub root: usize,
    pub flat_list: Vec<usize>,
    pub selected: usize,
    pub show_hidden: bool,
    pub follow_symlinks: bool,
    /// For the proofs: the index of each node's parent in the arena.
    pub parents: Ghost<Seq<int>>,
}

/// The position of the last visible entry whose path equals `path`.
pub open spec fn last_path_match(nodes: Seq<TreeNode>, flat: Seq<usize>, path: Seq<char>) -> Option<int>
    decreases flat.len(),
{
    if flat.len() == 0 {
        None
    } else if path_eq(nodes[flat.last() as int].path@, path) {
        Some(flat.len() - 1)
    } else {
        last_path_match(nodes, flat.drop_last(), path)
    }
}

/// The first read in `reads` of the directory `dir`.
pub open spec fn read_for(reads: Seq<DirListing>, dir: Seq<char>) -> Option<int>
    decreases reads.len(),
{
    if reads.len() == 0 {
        None
    } else {
        match read_for(reads.drop_last(), dir) {
            Some(k) => Some(k),
            None => if reads.last().dir@ == dir {
                Some(reads.len() - 1)
            } else {
                None
            },
        }
    }
}

/// The navigation with the selection one entry further down, unless it is
/// on the last entry (or beyond).
pub open spec fn moved_down(nav: Navigation) -> Navigation {
    Navigation {
        selected: if nav.selected + 1 < nav.flat_list@.len() {
            (nav.selected + 1) as usize
        } else {
            nav.selected
        },
        ..nav
    }
}

/// The navigation with the selection one entry further up, stopping at the
/// first entry.
pub open spec fn moved_up(nav: Navigation) -> Navigation {
    Navigation { selected: if nav.selected > 0 { (nav.selected - 1) as usize } else { 0 }, ..nav }
}

impl Navigation {
    /// The arena has the shape of a tree rooted at node 0.
    pub closed spec fn arena_ok(&self) -> bool {
        &&& arena_wf(self.nodes@, self.parents@)
        &&& self.root == 0
        &&& self.nodes@.len() > 0
        &&& self.nodes@[0].depth == 0
    }

    /// The flat list is exactly what the tree shows from its root.
    pub open spec fn flat_matches_tree(&self) -> bool {
        self.flat_list@ == visible_from(self.nodes@, self.root as int)
    }

    /// Well-formed navigation state.
    pub closed spec fn wf(&self) -> bool {
        &&& self.arena_ok()
        &&& self.flat_matches_tree()
    }

    /// Appends the visible nodes from `node` downwards to `result`.
    fn collect_visible_nodes(&self, node: usize, result: &mut Vec<usize>)
        requires
            self.arena_ok(),
            node < self.nodes@.len(),
        ensures
            final(result)@ == old(result)@ + visible_from(self.nodes@, node as int),
        decreases self.nodes@.len() - node,
    {
        let ghost start = result@;
        result.push(node);
        if self.nodes[node].is_expanded {
            let n = self.nodes[node].children.len();
            let ghost cs = self.nodes@[node as int].children@;
            proof {
                lemma_children_of_node(self.nodes@, self.parents@, node as int);
                assert(cs.take(0) =~= Seq::<usize>::empty());
            }
            let mut j: usize = 0;
            while j < n
                invariant
                    self.arena_ok(),
                    node < self.nodes@.len(),
                    cs == self.nodes@[node as int].children@,
                    n == cs.len(),
                    j <= n,
                    result@ == start + seq![node] + visible_children(
                        self.nodes@,
                        node as int,
                        cs.take(j as int),
                    ),
                decreases n - j,
            {
                let c = self.nodes[node].children[j];
                proof {
                    assert(cs.take(j + 1).drop_last() =~= cs.take(j as int));
                    assert(cs.take(j + 1).last() == c);
                    assert(self.nodes@[node as int].children@[j as int] == c);
                }
                self.collect_visible_nodes(c, result);
                j = j + 1;
            }
            proof {
                assert(cs.take(n as int) =~= cs);
            }
        }
    }

    /// Recomputes the flat list from the tree.
    pub fn rebuild_flat_list(&mut self)
        requires
            old(self).arena_ok(),
        ensures
            final(self).wf(),
            final(self).flat_matches_tree(),
            final(self).nodes == old(self).nodes,
            final(self).root == old(self).root,
            final(self).selected == old(self).selected,
            final(self).show_hidden == old(self).show_hidden,
            final(self).follow_symlinks == old(self).follow_symlinks,
    {
        let mut list: Vec<usize> = Vec::new();
        self.collect_visible_nodes(self.root, &mut list);
        self.flat_list = list;
    }

    /// The index in `flat_list` of the last visible node whose path equals
    /// `path`.
    fn index_of_path(&self, path: &str) -> (r: Option<usize>)
        requires
            self.wf(),
        ensures
            match r {
                Some(k) => last_path_match(self.nodes@, self.flat_list@, path@) == Some(k as int),
                None => last_path_match(self.nodes@, self.flat_list@, path@) is None,
            },
    {
        let ghost flat = self.flat_list@;
        proof {
            lemma_visible_from_facts(self.nodes@, self.parents@, 0);
        }
        let mut k = self.flat_list.len();
        assert(flat.take(k as int) =~= flat);
        assert forall|j: int| 0 <= j < flat.len() implies (#[trigger] flat[j]) < self.nodes@.len() by {
            if j > 0 {
                assert(placed_below(self.nodes@, self.parents@, flat, 0, j));
            }
        }
        while k > 0
            invariant
                self.wf(),
                flat == self.flat_list@,
                forall|j: int| 0 <= j < flat.len() ==> (#[trigger] flat[j]) < self.nodes@.len(),
                k <= flat.len(),
                last_path_match(self.nodes@, flat, path@) == last_path_match(self.nodes@, flat.take(k as int), path@),
            decreases k,
        {
            let x = self.flat_list[k - 1];
            proof {
                assert(flat.take(k as int).last() == x);
                assert(flat.take(k as int).drop_last() =~= flat.take(k - 1));
            }
            if same_path(self.nodes[x].path.as_str(), path) {
                return Some(k - 1);
            }
            k = k - 1;
        }
        None
    }

    /// The node at the selection, if the selection is on a visible entry.
    pub fn get_selected_node(&self) -> (r: Option<&TreeNode>)
        requires
            self.wf(),
        ensures
            r == if self.selected < self.flat_list@.len() {
                Some(&self.nodes@[self.flat_list@[self.selected as int] as int])
            } else {
                None::<&TreeNode>
            },
    {
        if self.selected < self.flat_list.len() {
            let x = self.flat_list[self.selected];
            proof {
                lemma_visible_from_facts(self.nodes@, self.parents@, 0);
                if x > 0 {
                    assert(placed_below(self.nodes@, self.parents@, self.flat_list@, 0, self.selected as int));
                }
            }
            Some(&self.nodes[x])
        } else {
            None
        }
    }

    /// Moves the selection one entry down, unless it is on the last entry
    /// (or beyond).
    pub fn move_down(&mut self)
        ensures
            *final(self) == moved_down(*old(self)),
            old(self).wf() ==> final(self).wf(),
    {
        let last = if self.flat_list.len() > 0 { self.flat_list.len() - 1 } else { 0 };
        if self.selected < last {
            self.selected = self.selected + 1;
        }
    }

    /// Moves the selection one entry up, stopping at the first entry.
    pub fn move_up(&mut self)
        ensures
            *final(self) == moved_up(*old(self)),
            old(self).wf() ==> final(self).wf(),
    {
        if self.selected > 0 {
            self.selected = self.selected - 1;
        }
    }
}

/// The number of entries a read can add to the arena.
pub open spec fn read_count(read: DirRead) -> nat {
    read_len(read)
}

fn read_item_count(read: &DirRead) -> (n: usize)
    ensures
        n == read_len(*read),
{
    match read {
        DirRead::Entries(es) => es.len(),
        DirRead::Failed(_) => 0,
    }
}

/// Node `x` was toggled with `read`; the children it loaded (if any) were
/// appended to the arena.
pub open spec fn toggled_at(
    n1: Seq<TreeNode>,
    n2: Seq<TreeNode>,
    x: int,
    read: DirRead,
    show_files: bool,
    show_hidden: bool,
    follow_symlinks: bool,
) -> bool {
    &&& changed_only_at(n1, n2, x)
    &&& toggle_result(
        n1[x],
        n2[x],
        n2.skip(n1.len() as int),
        read,
        show_files,
        show_hidden,
        follow_symlinks,
        n1.len() as int,
    )
}

/// Node `x` was replaced by `nx`, keeping its place in the tree, and
/// either its children are unchanged, or it has none, or its children are
/// the nodes `made`, appended after the arena and one level deeper.
pub open spec fn replaced_with_children(
    n1: Seq<TreeNode>,
    x: int,
    nx: TreeNode,
    made: Seq<TreeNode>,
) -> bool {
    &&& nx.path == n1[x].path
    &&& nx.name == n1[x].name
    &&& nx.depth == n1[x].depth
    &&& (made.len() == 0 && nx.children@ == n1[x].children@) || (made.len() == 0 && nx.children@.len() == 0) || (
    nx.children@.len() == made.len() && forall|i: int|
        0 <= i < made.len() ==> #[trigger] nx.children@[i] == n1.len() + i)
    &&& forall|i: int|
        0 <= i < made.len() ==> is_fresh_node(
            #[trigger] made[i],
            made[i].path@,
            made[i].is_dir,
            n1[x].depth + 1,
        )
}

/// Replacing a node and appending its new children keeps the arena's shape.
pub proof fn lemma_append_children(n1: Seq<TreeNode>, p1: Seq<int>, x: int, nx: TreeNode, made: Seq<TreeNode>)
    requires
        arena_wf(n1, p1),
        0 <= x < n1.len(),
        n1.len() + made.len() <= usize::MAX,
        replaced_with_children(n1, x, nx, made),
    ensures
        arena_wf(
            n1.update(x, nx) + made,
            p1 + Seq::new(made.len(), |i: int| x),
        ),
{
    let n2 = n1.update(x, nx) + made;
    let p2 = p1 + Seq::new(made.len(), |i: int| x);
    assert forall|i: int| 0 <= i < n2.len() implies (#[trigger] n2[i]).depth <= i by {
        if i >= n1.len() {
            assert(n2[i] == made[i - n1.len()]);
        }
    }
    assert forall|i: int| 0 <= i < n2.len() implies (#[trigger] n2[i]).name@ == name_of(n2[i].path@) by {
        if i >= n1.len() {
            assert(n2[i] == made[i - n1.len()]);
        }
    }
    assert forall|i: int| 0 <= i < n2.len() implies (#[trigger] n2[i]).children@.no_duplicates() by {
        if i >= n1.len() {
            assert(n2[i] == made[i - n1.len()]);
        } else if i == x && nx.children@ != n1[i].children@ && nx.children@.len() > 0 {
            assert forall|a: int, b: int| 0 <= a < nx.children@.len() && 0 <= b < nx.children@.len() && a != b
                implies nx.children@[a] != nx.children@[b] by {
                assert(nx.children@[a] == n1.len() + a);
                assert(nx.children@[b] == n1.len() + b);
            }
        }
    }
    assert forall|i: int, j: int|
        0 <= i < n2.len() && 0 <= j < n2[i].children@.len() implies {
            let c = #[trigger] n2[i].children@[j] as int;
            &&& i < c < n2.len()
            &&& p2[c] == i
            &&& n2[c].depth == n2[i].depth + 1
        } by {
        let c = n2[i].children@[j] as int;
        if i >= n1.len() {
            assert(n2[i] == made[i - n1.len()]);
        } else if i == x && nx.children@ != n1[i].children@ {
            assert(c == n1.len() + j);
            assert(n2[c] == made[j]);
            assert(p2[c] == x);
        } else {
            assert(n2[i].children@ == n1[i].children@);
            assert(n1[i].children@[j] == c);
            assert(p2[c] == p1[c]);
        }
    }
}

impl Navigation {
    /// Toggles node `x` in the arena, appending the children it loads.
    /// Returns false, changing nothing, when the arena cannot hold them.
    fn toggle_at(&mut self, x: usize, read: &DirRead, show_files: bool) -> (ok: bool)
        requires
            old(self).arena_ok(),
            x < old(self).nodes@.len(),
        ensures
            ok ==> final(self).arena_ok(),
            ok ==> toggled_at(
                old(self).nodes@,
                final(self).nodes@,
                x as int,
                *read,
                show_files,
                old(self).show_hidden,
                old(self).follow_symlinks,
            ),
            ok == (old(self).nodes@.len() + read_len(*read) <= usize::MAX),
            !ok ==> *final(self) == *old(self),
            final(self).flat_list == old(self).flat_list,
            final(self).selected == old(self).selected,
            final(self).root == old(self).root,
            final(self).show_hidden == old(self).show_hidden,
            final(self).follow_symlinks == old(self).follow_symlinks,
    {
        let first = self.nodes.len();
        let count = read_item_count(read);
        if count > usize::MAX - first {
            return false;
        }
        let ghost n1 = self.nodes@;
        let ghost p1 = self.parents@;
        let sh = self.show_hidden;
        let fs = self.follow_symlinks;
        proof {
            assert(n1[x as int].depth <= x);
        }
        let mut created = self.nodes[x].toggle_expand(read, show_files, sh, fs, first);
        let ghost nx = self.nodes@[x as int];
        let ghost m = created@.len();
        let ghost made = created@;
        self.nodes.append(&mut created);
        let ghost n2 = self.nodes@;
        self.parents = Ghost(p1 + Seq::new(m, |i: int| x as int));
        proof {
            assert(n2 =~= n1.update(x as int, nx) + made);
            assert(n2.skip(n1.len() as int) =~= made);
            assert(n2.len() == self.nodes.len());
            lemma_append_children(n1, p1, x as int, nx, made);
        }
        true
    }
}

/// Positions `k + 1 ..= k + m` of the flat list hold nodes deeper than the
/// node at `k`, and the entry after them (if any) is not deeper.
pub open spec fn deeper_run(nodes: Seq<TreeNode>, flat: Seq<usize>, k: int, m: int) -> bool {
    &&& 0 <= m
    &&& k + 1 + m <= flat.len()
    &&& forall|j: int| k < j <= k + m ==> nodes[#[trigger] flat[j] as int].depth > nodes[flat[k] as int].depth
    &&& k + 1 + m < flat.len() ==> nodes[flat[k + 1 + m] as int].depth <= nodes[flat[k] as int].depth
}

/// Every entry of the flat list is a node of the arena.
pub open spec fn flat_in_arena(nodes: Seq<TreeNode>, flat: Seq<usize>) -> bool {
    forall|j: int| 0 <= j < flat.len() ==> (#[trigger] flat[j]) < nodes.len()
}

/// The first read of `dir` among `reads`.
fn find_read(reads: &Vec<DirListing>, dir: &String) -> (r: Option<usize>)
    ensures
        match r {
            Some(k) => read_for(reads@, dir@) == Some(k as int),
            None => read_for(reads@, dir@) is None,
        },
{
    let mut i: usize = 0;
    assert(reads@.take(0) =~= Seq::<DirListing>::empty());
    while i < reads.len()
        invariant
            i <= reads@.len(),
            read_for(reads@.take(i as int), dir@) is None,
        decreases reads.len() - i,
    {
        assert(reads@.take(i + 1).drop_last() =~= reads@.take(i as int));
        assert(reads@.take(i + 1).last() == reads@[i as int]);
        if reads[i].dir == *dir {
            proof {
                lemma_read_for_prefix(reads@, dir@, i + 1);
            }
            return Some(i);
        }
        i = i + 1;
    }
    assert(reads@.take(reads@.len() as int) =~= reads@);
    None
}

/// A read found is at a valid position and reads that directory.
proof fn lemma_read_for_valid(reads: Seq<DirListing>, dir: Seq<char>)
    requires
        read_for(reads, dir) is Some,
    ensures
        0 <= read_for(reads, dir)->0 < reads.len(),
        reads[read_for(reads, dir)->0].dir@ == dir,
    decreases reads.len(),
{
    if read_for(reads.drop_last(), dir) is Some {
        lemma_read_for_valid(reads.drop_last(), dir);
    }
}

/// A read found in a prefix of the reads is the one found in all of them.
proof fn lemma_read_for_prefix(reads: Seq<DirListing>, dir: Seq<char>, n: int)
    requires
        0 <= n <= reads.len(),
        read_for(reads.take(n), dir) is Some,
    ensures
        read_for(reads, dir) == read_for(reads.take(n), dir),
    decreases reads.len() - n,
{
    if n < reads.len() {
        assert(reads.take(n + 1).drop_last() =~= reads.take(n));
        lemma_read_for_prefix(reads, dir, n + 1);
    } else {
        assert(reads.take(n) =~= reads);
    }
}

impl Navigation {
    /// Drops the entries below the node at `parent_index` from the flat list:
    /// the run of deeper entries that follows it.
    fn remove_descendants_from_flat_list(&mut self, parent_index: usize)
        requires
            old(self).arena_ok(),
            parent_index < old(self).flat_list@.len(),
            flat_in_arena(old(self).nodes@, old(self).flat_list@),
        ensures
            exists|m: int|
                deeper_run(old(self).nodes@, old(self).flat_list@, parent_index as int, m)
                    && final(self).flat_list@ == old(self).flat_list@.take(parent_index + 1)
                    + old(self).flat_list@.skip(parent_index + 1 + m),
            final(self).nodes == old(self).nodes,
            final(self).parents == old(self).parents,
            final(self).selected == old(self).selected,
            final(self).root == old(self).root,
            final(self).show_hidden == old(self).show_hidden,
            final(self).follow_symlinks == old(self).follow_symlinks,
    {
        let ghost flat = self.flat_list@;
        let len = self.flat_list.len();
        let parent_depth = self.nodes[self.flat_list[parent_index]].depth;
        let mut remove_count: usize = 0;
        let mut i = parent_index + 1;
        while i < self.flat_list.len() && self.nodes[self.flat_list[i]].depth > parent_depth
            invariant
                flat == self.flat_list@,
                flat_in_arena(self.nodes@, flat),
                parent_index < flat.len(),
                parent_depth == self.nodes@[flat[parent_index as int] as int].depth,
                i == parent_index + 1 + remove_count,
                i <= flat.len(),
                forall|j: int| parent_index < j < i ==> self.nodes@[#[trigger] flat[j] as int].depth > parent_depth,
            decreases flat.len() - i,
        {
            remove_count = remove_count + 1;
            i = i + 1;
        }
        let ghost m = remove_count as int;
        assert(deeper_run(self.nodes@, flat, parent_index as int, m));
        if remove_count > 0 {
            let mut tail = self.flat_list.split_off(parent_index + 1);
            let mut rest = tail.split_off(remove_count);
            self.flat_list.append(&mut rest);
        }
        assert(self.flat_list@ =~= flat.take(parent_index + 1) + flat.skip(parent_index + 1 + m));
    }

    /// Puts the entries shown below the node at `parent_index` right after it.
    fn insert_children_into_flat_list(&mut self, parent_index: usize)
        requires
            old(self).arena_ok(),
            parent_index < old(self).flat_list@.len(),
            flat_in_arena(old(self).nodes@, old(self).flat_list@),
        ensures
            final(self).flat_list@ == old(self).flat_list@.take(parent_index + 1) + (if old(
                self,
            ).nodes@[old(self).flat_list@[parent_index as int] as int].is_expanded {
                visible_children(
                    old(self).nodes@,
                    old(self).flat_list@[parent_index as int] as int,
                    old(self).nodes@[old(self).flat_list@[parent_index as int] as int].children@,
                )
            } else {
                Seq::<usize>::empty()
            }) + old(self).flat_list@.skip(parent_index + 1),
            final(self).nodes == old(self).nodes,
            final(self).parents == old(self).parents,
            final(self).selected == old(self).selected,
            final(self).root == old(self).root,
            final(self).show_hidden == old(self).show_hidden,
            final(self).follow_symlinks == old(self).follow_symlinks,
    {
        let ghost flat = self.flat_list@;
        let len = self.flat_list.len();
        let node = self.flat_list[parent_index];
        let mut new_nodes: Vec<usize> = Vec::new();
        if self.nodes[node].is_expanded {
            let n = self.nodes[node].children.len();
            let ghost cs = self.nodes@[node as int].children@;
            proof {
                lemma_children_of_node(self.nodes@, self.parents@, node as int);
                assert(cs.take(0) =~= Seq::<usize>::empty());
            }
            let mut j: usize = 0;
            while j < n
                invariant
                    self.arena_ok(),
                    node < self.nodes@.len(),
                    cs == self.nodes@[node as int].children@,
                    n == cs.len(),
                    j <= n,
                    new_nodes@ == visible_children(self.nodes@, node as int, cs.take(j as int)),
                decreases n - j,
            {
                let c = self.nodes[node].children[j];
                proof {
                    assert(cs.take(j + 1).drop_last() =~= cs.take(j as int));
                    assert(cs.take(j + 1).last() == c);
                    assert(self.nodes@[node as int].children@[j as int] == c);
                }
                self.collect_visible_nodes(c, &mut new_nodes);
                j = j + 1;
            }
            proof {
                assert(cs.take(n as int) =~= cs);
            }
        }
        let ghost inserted = new_nodes@;
        if new_nodes.len() > 0 {
            let mut tail = self.flat_list.split_off(parent_index + 1);
            self.flat_list.append(&mut new_nodes);
            self.flat_list.append(&mut tail);
        }
        assert(self.flat_list@ =~= flat.take(parent_index + 1) + inserted + flat.skip(parent_index + 1));
    }
}

/// Toggling this node reads its directory.
pub open spec fn will_load(n: TreeNode) -> bool {
    n.is_dir && !n.is_expanded && needs_load(n)
}

/// The read that toggling node `x` uses: the first read of its directory
/// when it loads, else unused.
pub open spec fn read_used(nodes: Seq<TreeNode>, x: int, reads: Seq<DirListing>) -> DirRead {
    if will_load(nodes[x]) {
        reads[read_for(reads, nodes[x].path@)->0].read
    } else {
        arbitrary()
    }
}

/// The message `toggle_node` reports for a toggled node: its error message
/// when its error flag is set.
pub open spec fn error_report(n: TreeNode) -> Option<Seq<char>> {
    if n.has_error {
        opt_text(n.error_message)
    } else {
        None
    }
}

/// Every directory among the first `len` nodes whose path equals `target`
/// has a read in `reads`.
pub open spec fn reads_cover(nodes: Seq<TreeNode>, len: int, target: Seq<char>, reads: Seq<DirListing>) -> bool {
    forall|j: int|
        0 <= j < len && path_eq(#[trigger] nodes[j].path@, target) && nodes[j].is_dir ==> read_for(
            reads,
            nodes[j].path@,
        ) is Some
}

/// The nodes with the path `target` that a depth-first search from `x`
/// meets, in order, not looking below a node it meets.
pub open spec fn dfs_targets(nodes: Seq<TreeNode>, x: int, target: Seq<char>) -> Seq<int>
    decreases nodes.len() - x, 1nat, 0nat,
{
    if 0 <= x < nodes.len() {
        if path_eq(nodes[x].path@, target) {
            seq![x]
        } else {
            children_targets(nodes, x, nodes[x].children@, target)
        }
    } else {
        seq![]
    }
}

/// The targets met below the children `cs` of `p`, one child after another.
pub open spec fn children_targets(nodes: Seq<TreeNode>, p: int, cs: Seq<usize>, target: Seq<char>) -> Seq<int>
    decreases nodes.len() - p, 0nat, cs.len(),
{
    if cs.len() == 0 {
        seq![]
    } else if 0 <= p < cs.last() < nodes.len() {
        children_targets(nodes, p, cs.drop_last(), target) + dfs_targets(nodes, cs.last() as int, target)
    } else {
        children_targets(nodes, p, cs.drop_last(), target)
    }
}

/// Step `i` of a chain of arenas: node `ts[i]` toggled in `ns[i]` gives
/// `ns[i + 1]`.
pub open spec fn chain_step(
    ns: Seq<Seq<TreeNode>>,
    ts: Seq<int>,
    reads: Seq<DirListing>,
    show_files: bool,
    show_hidden: bool,
    follow_symlinks: bool,
    i: int,
) -> bool {
    toggled_at(ns[i], ns[i + 1], ts[i], read_used(ns[i], ts[i], reads), show_files, show_hidden, follow_symlinks)
}

/// The arenas `ns` come from toggling the nodes `ts`, one after another.
pub open spec fn toggle_chain(
    ns: Seq<Seq<TreeNode>>,
    ts: Seq<int>,
    reads: Seq<DirListing>,
    show_files: bool,
    show_hidden: bool,
    follow_symlinks: bool,
) -> bool {
    &&& ns.len() == ts.len() + 1
    &&& forall|i: int|
        0 <= i < ts.len() ==> #[trigger] chain_step(ns, ts, reads, show_files, show_hidden, follow_symlinks, i)
}

/// The node toggled at step `i` reports no error.
pub open spec fn quiet_step(ns: Seq<Seq<TreeNode>>, ts: Seq<int>, i: int) -> bool {
    error_report(ns[i + 1][ts[i]]) is None
}

/// The search toggled the targets `ts` in order through the arenas `ns`,
/// stopping after the first that reports an error; `msg` is that error, or
/// `None` when every target was toggled without one.
pub open spec fn dfs_outcome(
    ns: Seq<Seq<TreeNode>>,
    ts: Seq<int>,
    reads: Seq<DirListing>,
    show_files: bool,
    show_hidden: bool,
    follow_symlinks: bool,
    msg: Option<Seq<char>>,
) -> bool {
    let k = ns.len() - 1;
    &&& ns.len() >= 1
    &&& k <= ts.len()
    &&& toggle_chain(ns, ts.take(k), reads, show_files, show_hidden, follow_symlinks)
    &&& forall|i: int| 0 <= i < k - 1 ==> #[trigger] quiet_step(ns, ts, i)
    &&& match msg {
        Some(m) => k > 0 && error_report(ns[k][ts[k - 1]]) == Some(m),
        None => k == ts.len() && (k == 0 || quiet_step(ns, ts, k - 1)),
    }
}

proof fn lemma_chain_concat(
    a: Seq<Seq<TreeNode>>,
    ta: Seq<int>,
    b: Seq<Seq<TreeNode>>,
    tb: Seq<int>,
    reads: Seq<DirListing>,
    show_files: bool,
    show_hidden: bool,
    follow_symlinks: bool,
)
    requires
        toggle_chain(a, ta, reads, show_files, show_hidden, follow_symlinks),
        toggle_chain(b, tb, reads, show_files, show_hidden, follow_symlinks),
        a.last() == b[0],
    ensures
        toggle_chain(a + b.skip(1), ta + tb, reads, show_files, show_hidden, follow_symlinks),
        (a + b.skip(1)).last() == b.last(),
        (a + b.skip(1))[0] == a[0],
        forall|i: int|
            0 <= i < ta.len() && quiet_step(a, ta, i) ==> #[trigger] quiet_step(a + b.skip(1), ta + tb, i),
        forall|q: int|
            0 <= q < tb.len() && quiet_step(b, tb, q) ==> #[trigger] quiet_step(a + b.skip(1), ta + tb, ta.len() + q),
{
    let c = a + b.skip(1);
    let tc = ta + tb;
    assert forall|i: int| 0 <= i < tc.len() implies #[trigger] chain_step(
        c,
        tc,
        reads,
        show_files,
        show_hidden,
        follow_symlinks,
        i,
    ) by {
        if i < ta.len() {
            assert(chain_step(a, ta, reads, show_files, show_hidden, follow_symlinks, i));
            assert(c[i] == a[i] && c[i + 1] == a[i + 1] && tc[i] == ta[i]);
        } else {
            let q = i - ta.len();
            assert(chain_step(b, tb, reads, show_files, show_hidden, follow_symlinks, q));
            assert(c[i + 1] == b[q + 1]);
            assert(tc[i] == tb[q]);
            if q == 0 {
                assert(c[i] == a[a.len() - 1]);
            } else {
                assert(c[i] == b[q]);
            }
        }
    }
    assert forall|i: int| 0 <= i < ta.len() && quiet_step(a, ta, i) implies #[trigger] quiet_step(c, tc, i) by {
        assert(c[i + 1] == a[i + 1] && tc[i] == ta[i]);
    }
    assert forall|q: int| 0 <= q < tb.len() && quiet_step(b, tb, q) implies #[trigger] quiet_step(
        c,
        tc,
        ta.len() + q,
    ) by {
        assert(c[ta.len() + q + 1] == b[q + 1]);
        assert(tc[ta.len() + q] == tb[q]);
    }
}

proof fn lemma_children_targets_prefix(nodes: Seq<TreeNode>, p: int, cs: Seq<usize>, target: Seq<char>, j: int)
    requires
        0 <= j <= cs.len(),
    ensures
        children_targets(nodes, p, cs, target).take(children_targets(nodes, p, cs.take(j), target).len() as int)
            == children_targets(nodes, p, cs.take(j), target),
        children_targets(nodes, p, cs.take(j), target).len() <= children_targets(nodes, p, cs, target).len(),
    decreases cs.len(),
{
    if j == cs.len() {
        assert(cs.take(j) =~= cs);
    } else {
        lemma_children_targets_prefix(nodes, p, cs.drop_last(), target, j);
        assert(cs.drop_last().take(j) =~= cs.take(j));
    }
}

impl Navigation {
    /// The path of a directory node whose path equals `target` and for which
    /// `reads` holds no read.
    fn missing_read_for_path(&self, target: &str, reads: &Vec<DirListing>) -> (r: Option<String>)
        requires
            self.arena_ok(),
        ensures
            r is None ==> reads_cover(self.nodes@, self.nodes@.len() as int, target@, reads@),
            r matches Some(d) ==> exists|j: int|
                0 <= j < self.nodes@.len() && #[trigger] self.nodes@[j].path@ == d@ && path_eq(d@, target@)
                    && self.nodes@[j].is_dir && read_for(reads@, d@) is None,
    {
        let mut j: usize = 0;
        while j < self.nodes.len()
            invariant
                j <= self.nodes@.len(),
                reads_cover(self.nodes@, j as int, target@, reads@),
            decreases self.nodes@.len() - j,
        {
            if self.nodes[j].is_dir && same_path(self.nodes[j].path.as_str(), target) {
                if find_read(reads, &self.nodes[j].path).is_none() {
                    let d = self.nodes[j].path.clone();
                    assert(self.nodes@[j as int].path@ == d@);
                    return Some(d);
                }
            }
            j = j + 1;
        }
        None
    }

    /// Toggles, in depth-first order from `node`, the nodes whose path equals
    /// `target`, not looking below a toggled node, until one of them reports
    /// an error; returns that error.  `Err` when the arena cannot hold the
    /// entries of a directory it has to load.
    fn toggle_node_recursive(
        &mut self,
        node: usize,
        target: &str,
        show_files: bool,
        reads: &Vec<DirListing>,
        orig: Ghost<Seq<TreeNode>>,
        len0: Ghost<int>,
    ) -> (r: (Result<Option<String>, ()>, Ghost<Seq<Seq<TreeNode>>>))
        requires
            old(self).arena_ok(),
            0 <= node < len0@,
            len0@ <= orig@.len(),
            len0@ <= old(self).nodes@.len(),
            forall|j: int|
                #![trigger old(self).nodes@[j]]
                0 <= j < len0@ ==> old(self).nodes@[j].path == orig@[j].path && old(self).nodes@[j].is_dir
                    == orig@[j].is_dir,
            forall|j: int|
                #![trigger old(self).nodes@[j]]
                0 <= j < len0@ && !path_eq(orig@[j].path@, target@) ==> old(self).nodes@[j] == orig@[j],
            forall|j: int, i: int|
                #![trigger orig@[j].children@[i]]
                0 <= j < len0@ && 0 <= i < orig@[j].children@.len() ==> j < orig@[j].children@[i] < len0@,
            reads_cover(orig@, len0@, target@, reads@),
        ensures
            final(self).arena_ok(),
            old(self).nodes@.len() <= final(self).nodes@.len(),
            forall|j: int|
                #![trigger final(self).nodes@[j]]
                0 <= j < len0@ ==> final(self).nodes@[j].path == orig@[j].path && final(self).nodes@[j].is_dir
                    == orig@[j].is_dir,
            forall|j: int|
                #![trigger final(self).nodes@[j]]
                0 <= j < len0@ && !path_eq(orig@[j].path@, target@) ==> final(self).nodes@[j] == orig@[j],
            forall|j: int|
                #![trigger final(self).nodes@[j]]
                0 <= j < old(self).nodes@.len() && !path_eq(old(self).nodes@[j].path@, target@)
                    ==> final(self).nodes@[j] == old(self).nodes@[j],
            final(self).flat_list == old(self).flat_list,
            final(self).selected == old(self).selected,
            final(self).root == old(self).root,
            final(self).show_hidden == old(self).show_hidden,
            final(self).follow_symlinks == old(self).follow_symlinks,
            r.0 matches Ok(m) ==> {
                &&& dfs_outcome(
                    r.1@,
                    dfs_targets(orig@, node as int, target@),
                    reads@,
                    show_files,
                    old(self).show_hidden,
                    old(self).follow_symlinks,
                    opt_text(m),
                )
                &&& r.1@[0] == old(self).nodes@
                &&& r.1@.last() == final(self).nodes@
            },
            r.0 is Err ==> exists|j: int|
                0 <= j < final(self).nodes@.len() && path_eq(#[trigger] final(self).nodes@[j].path@, target@)
                    && will_load(final(self).nodes@[j]) && read_for(reads@, final(self).nodes@[j].path@) is Some
                    && final(self).nodes@.len() + read_len(read_used(final(self).nodes@, j, reads@))
                    > usize::MAX,
        decreases usize::MAX - node,
    {
        let ghost start = self.nodes@;
        if same_path(self.nodes[node].path.as_str(), target) {
            let ghost n1 = self.nodes@;
            let empty = DirRead::Entries(Vec::new());
            let wl = self.nodes[node].is_dir && !self.nodes[node].is_expanded && !(
            self.nodes[node].children.len() > 0 && self.nodes[node].is_sorted);
            let found = if wl {
                find_read(reads, &self.nodes[node].path)
            } else {
                None
            };
            proof {
                if found is Some {
                    lemma_read_for_valid(reads@, self.nodes@[node as int].path@);
                }
            }
            let ok = match found {
                Some(i) => self.toggle_at(node, &reads[i].read, show_files),
                None => self.toggle_at(node, &empty, show_files),
            };
            if !ok {
                proof {
                    assert(path_eq(self.nodes@[node as int].path@, target@));
                }
                let ghost g = seq![start];
                return (Err(()), Ghost(g));
            }
            let ghost ns = seq![n1, self.nodes@];
            let ghost ts = seq![node as int];
            proof {
                assert(path_eq(orig@[node as int].path@, target@));
                assert(dfs_targets(orig@, node as int, target@) == ts);
                assert(ts.take(1) =~= ts);
                assert(chain_step(ns, ts, reads@, show_files, self.show_hidden, self.follow_symlinks, 0));
            }
            proof {
                assert forall|j: int| #![trigger self.nodes@[j]] 0 <= j < len0@ implies self.nodes@[j].path == orig@[j].path
                    && self.nodes@[j].is_dir == orig@[j].is_dir by {
                    if j != node {
                        assert(self.nodes@[j] == n1[j]);
                    }
                }
                assert forall|j: int| #![trigger self.nodes@[j]] 0 <= j < len0@ && !path_eq(orig@[j].path@, target@) implies self.nodes@[j] == orig@[j] by {
                    if j != node {
                        assert(self.nodes@[j] == n1[j]);
                    }
                }
            }
            let msg = if self.nodes[node].has_error {
                match &self.nodes[node].error_message {
                    Some(m) => Some(m.clone()),
                    None => None,
                }
            } else {
                None
            };
            return (Ok(msg), Ghost(ns));
        }
        let n = self.nodes[node].children.len();
        let ghost cs = orig@[node as int].children@;
        let ghost mut ch: Seq<Seq<TreeNode>> = seq![start];
        proof {
            assert(cs.take(0) =~= Seq::<usize>::empty());
            assert(toggle_chain(ch, Seq::<int>::empty(), reads@, show_files, self.show_hidden, self.follow_symlinks));
        }
        let mut j: usize = 0;
        while j < n
            invariant
                self.arena_ok(),
                0 <= node < len0@,
                cs == orig@[node as int].children@,
                ch.len() >= 1,
                ch[0] == old(self).nodes@,
                ch.last() == self.nodes@,
                ch.len() - 1 == children_targets(orig@, node as int, cs.take(j as int), target@).len(),
                toggle_chain(
                    ch,
                    children_targets(orig@, node as int, cs.take(j as int), target@),
                    reads@,
                    show_files,
                    old(self).show_hidden,
                    old(self).follow_symlinks,
                ),
                forall|i: int|
                    0 <= i < ch.len() - 1 ==> #[trigger] quiet_step(
                        ch,
                        children_targets(orig@, node as int, cs.take(j as int), target@),
                        i,
                    ),
                len0@ <= orig@.len(),
                len0@ <= self.nodes@.len(),
                old(self).nodes@.len() <= self.nodes@.len(),
                !path_eq(orig@[node as int].path@, target@),
                self.nodes@[node as int] == orig@[node as int],
                n == orig@[node as int].children@.len(),
                j <= n,
                forall|jj: int|
                    #![trigger self.nodes@[jj]]
                    0 <= jj < len0@ ==> self.nodes@[jj].path == orig@[jj].path && self.nodes@[jj].is_dir
                        == orig@[jj].is_dir,
                forall|jj: int|
                    #![trigger self.nodes@[jj]]
                    0 <= jj < len0@ && !path_eq(orig@[jj].path@, target@) ==> self.nodes@[jj] == orig@[jj],
                forall|jj: int|
                    #![trigger self.nodes@[jj]]
                    0 <= jj < old(self).nodes@.len() && !path_eq(old(self).nodes@[jj].path@, target@) ==> self.nodes@[jj] == old(self).nodes@[jj],
                forall|a: int, i: int|
                    #![trigger orig@[a].children@[i]]
                    0 <= a < len0@ && 0 <= i < orig@[a].children@.len() ==> a < orig@[a].children@[i] < len0@,
                reads_cover(orig@, len0@, target@, reads@),
                self.flat_list == old(self).flat_list,
                self.selected == old(self).selected,
                self.root == old(self).root,
                self.show_hidden == old(self).show_hidden,
                self.follow_symlinks == old(self).follow_symlinks,
            decreases n - j,
        {
            let c = self.nodes[node].children[j];
            proof {
                assert(orig@[node as int].children@[j as int] == c);
                assert(c < len0@);
                assert(node < c);
            }
            let ghost before = self.nodes@;
            let ghost ta = children_targets(orig@, node as int, cs.take(j as int), target@);
            let ghost tc = dfs_targets(orig@, c as int, target@);
            let (res, sub) = self.toggle_node_recursive(c, target, show_files, reads, orig, len0);
            proof {
                assert(cs.take(j + 1).drop_last() =~= cs.take(j as int));
                assert(cs.take(j + 1).last() == c);
                assert(children_targets(orig@, node as int, cs.take(j + 1), target@) == ta + tc);
            }
            match res {
                Err(()) => {
                    let ghost g = seq![start];
                return (Err(()), Ghost(g));
                },
                Ok(Some(m)) => {
                    let ghost sb = sub@;
                    let ghost k2 = sb.len() - 1;
                    let ghost all = children_targets(orig@, node as int, cs, target@);
                    proof {
                        lemma_chain_concat(ch, ta, sb, tc.take(k2), reads@, show_files, self.show_hidden, self.follow_symlinks);
                        lemma_children_targets_prefix(orig@, node as int, cs, target@, j + 1);
                        assert(dfs_targets(orig@, node as int, target@) == all);
                        let nc = ch + sb.skip(1);
                        let tt = ta + tc.take(k2);
                        assert(all.take((ta + tc).len() as int) == ta + tc);
                        assert(all.take(nc.len() - 1) =~= tt);
                        assert forall|i: int| 0 <= i < nc.len() - 2 implies #[trigger] quiet_step(nc, all, i) by {
                            if i < ta.len() {
                                assert(quiet_step(ch, ta, i));
                                assert(quiet_step(nc, tt, i));
                            } else {
                                let q = i - ta.len();
                                assert(quiet_step(sb, tc, q));
                                assert(quiet_step(sb, tc.take(k2), q));
                                assert(quiet_step(nc, tt, i));
                            }
                            assert(all[i] == tt[i]);
                        }
                        assert(nc[nc.len() - 1] == sb[k2]);
                        assert(1 <= k2 <= tc.len());
                        let idx = ta.len() + k2 - 1;
                        assert(idx == nc.len() - 2);
                        assert(all.take((ta + tc).len() as int)[idx] == all[idx]);
                        assert((ta + tc)[idx] == tc[k2 - 1]);
                        assert(all[nc.len() - 2] == tc[k2 - 1]);
                    }
                    let ghost g = ch + sb.skip(1);
                    return (Ok(Some(m)), Ghost(g));
                },
                Ok(None) => {
                    let ghost sb = sub@;
                    proof {
                        assert(tc.take(tc.len() as int) =~= tc);
                        lemma_chain_concat(ch, ta, sb, tc, reads@, show_files, self.show_hidden, self.follow_symlinks);
                        let nc = ch + sb.skip(1);
                        assert forall|i: int| 0 <= i < nc.len() - 1 implies #[trigger] quiet_step(nc, ta + tc, i) by {
                            if i < ta.len() {
                                assert(quiet_step(ch, ta, i));
                            } else {
                                let q = i - ta.len();
                                assert(quiet_step(sb, tc, q));
                            }
                        }
                        ch = nc;
                    }
                },
            }
            j = j + 1;
        }
        proof {
            assert(cs.take(n as int) =~= cs);
            let all = children_targets(orig@, node as int, cs, target@);
            assert(dfs_targets(orig@, node as int, target@) == all);
            assert(all.take(ch.len() - 1) =~= all);
        }
        (Ok(None), Ghost(ch))
    }
}

/// The deeper run after a position has one length.
proof fn lemma_deeper_run_unique(nodes: Seq<TreeNode>, flat: Seq<usize>, k: int, m1: int, m2: int)
    requires
        deeper_run(nodes, flat, k, m1),
        deeper_run(nodes, flat, k, m2),
    ensures
        m1 == m2,
{
    if m1 < m2 {
        assert(nodes[flat[k + 1 + m1] as int].depth > nodes[flat[k] as int].depth);
    } else if m2 < m1 {
        assert(nodes[flat[k + 1 + m2] as int].depth > nodes[flat[k] as int].depth);
    }
}

/// In a visible list, the entries shown below the node at `k` are exactly
/// the deeper run after `k`.
proof fn lemma_block_is_deeper_run(nodes: Seq<TreeNode>, parents: Seq<int>, k: int)
    requires
        arena_wf(nodes, parents),
        nodes.len() > 0,
        0 <= k < visible_from(nodes, 0).len(),
    ensures
        deeper_run(
            nodes,
            visible_from(nodes, 0),
            k,
            visible_from(nodes, visible_from(nodes, 0)[k] as int).len() - 1,
        ),
{
    let flat = visible_from(nodes, 0);
    lemma_block_from(nodes, parents, 0, k);
    lemma_visible_from_facts(nodes, parents, 0);
    let x = flat[k] as int;
    if k > 0 {
        assert(placed_below(nodes, parents, flat, 0, k));
    }
    lemma_visible_from_facts(nodes, parents, x);
    let vx = visible_from(nodes, x);
    assert forall|j: int| k < j <= k + vx.len() - 1 implies nodes[#[trigger] flat[j] as int].depth > nodes[flat[k] as int].depth by {
        assert(flat.subrange(k, k + vx.len())[j - k] == flat[j]);
        assert(placed_below(nodes, parents, vx, x, j - k));
    }
}

impl Navigation {
    /// Brings the flat list up to date after node `x` at position `k` was
    /// toggled: removes the entries below it when it closed, inserts them
    /// when it opened.
    fn update_flat_after_toggle(
        &mut self,
        k: usize,
        was_expanded: bool,
        n1: Ghost<Seq<TreeNode>>,
        p1: Ghost<Seq<int>>,
    )
        requires
            old(self).arena_ok(),
            arena_wf(n1@, p1@),
            n1@.len() > 0,
            old(self).flat_list@ == visible_from(n1@, 0),
            k < old(self).flat_list@.len(),
            changed_only_at(n1@, old(self).nodes@, old(self).flat_list@[k as int] as int),
            old(self).nodes@[old(self).flat_list@[k as int] as int].depth == n1@[old(self).flat_list@[k as int] as int].depth,
            was_expanded == n1@[old(self).flat_list@[k as int] as int].is_expanded,
            was_expanded && old(self).nodes@[old(self).flat_list@[k as int] as int].is_expanded ==> old(self).nodes@ == n1@,
            old(self).root == 0,
        ensures
            !was_expanded && old(self).nodes@[old(self).flat_list@[k as int] as int].is_expanded ==> final(self).flat_list@
                == old(self).flat_list@.take(k + 1) + visible_children(
                old(self).nodes@,
                old(self).flat_list@[k as int] as int,
                old(self).nodes@[old(self).flat_list@[k as int] as int].children@,
            ) + old(self).flat_list@.skip(k + 1),
            was_expanded && !old(self).nodes@[old(self).flat_list@[k as int] as int].is_expanded ==> exists|m: int|
                0 <= m && k + 1 + m <= old(self).flat_list@.len() && final(self).flat_list@ == old(
                    self,
                ).flat_list@.take(k + 1) + #[trigger] old(self).flat_list@.skip(k + 1 + m),
            final(self).wf(),
            final(self).nodes == old(self).nodes,
            final(self).parents == old(self).parents,
            final(self).selected == old(self).selected,
            final(self).root == old(self).root,
            final(self).show_hidden == old(self).show_hidden,
            final(self).follow_symlinks == old(self).follow_symlinks,
    {
        let ghost n2 = self.nodes@;
        let ghost flat1 = self.flat_list@;
        let x = self.flat_list[k];
        proof {
            lemma_visible_from_facts(n1@, p1@, 0);
            assert forall|j: int| 0 <= j < flat1.len() implies (#[trigger] flat1[j]) < n1@.len() by {
                if j > 0 {
                    assert(placed_below(n1@, p1@, flat1, 0, j));
                }
            }
            lemma_splice_from(n1@, n2, p1@, 0, x as int, k as int);
            lemma_block_from(n1@, p1@, 0, k as int);
            lemma_visible_from_facts(n1@, p1@, x as int);
        }
        let is_expanded = self.nodes[x].is_expanded;
        if was_expanded && !is_expanded {
            self.remove_descendants_from_flat_list(k);
            proof {
                let lx = visible_from(n1@, x as int).len() as int;
                lemma_block_is_deeper_run(n1@, p1@, k as int);
                assert forall|j: int| 0 <= j < flat1.len() implies n2[#[trigger] flat1[j] as int].depth
                    == n1@[flat1[j] as int].depth by {
                    if flat1[j] != x {
                        assert(n2[flat1[j] as int] == n1@[flat1[j] as int]);
                    }
                }
                assert(deeper_run(n2, flat1, k as int, lx - 1));
                let m = choose|m: int| deeper_run(n2, flat1, k as int, m) && self.flat_list@
                    == flat1.take(k + 1) + flat1.skip(k + 1 + m);
                lemma_deeper_run_unique(n2, flat1, k as int, m, lx - 1);
                assert(visible_from(n2, x as int) =~= seq![x]);
                assert(flat1.take(k + 1) =~= flat1.take(k as int) + seq![x]);
                assert(self.flat_list@ =~= visible_from(n2, 0));
            }
        } else if !was_expanded && is_expanded {
            self.insert_children_into_flat_list(k);
            proof {
                assert(visible_from(n1@, x as int) =~= seq![x]);
                assert(flat1.take(k + 1) =~= flat1.take(k as int) + seq![x]);
                assert(self.flat_list@ =~= visible_from(n2, 0));
            }
        } else {
            proof {
                if !was_expanded {
                    assert(visible_from(n1@, x as int) =~= seq![x]);
                    assert(visible_from(n2, x as int) =~= seq![x]);
                    assert(flat1 =~= flat1.take(k as int) + seq![x] + flat1.skip(k + 1));
                }
            }
        }
    }
}

/// What `toggle_node(path, show_files, reads)` gives from `before`: the
/// navigation `after` and the answer `r`.
pub open spec fn toggle_node_outcome(
    before: Navigation,
    after: Navigation,
    path: Seq<char>,
    show_files: bool,
    reads: Seq<DirListing>,
    r: NavStep<Option<String>>,
) -> bool {
    &&& after.wf()
    &&& after.flat_matches_tree()
    &&& after.selected == before.selected
    &&& after.show_hidden == before.show_hidden
    &&& after.follow_symlinks == before.follow_symlinks
    &&& (r is NeedRead ==> after == before)
    &&& (last_path_match(before.nodes@, before.flat_list@, path) matches Some(k) ==> {
        let x = before.flat_list@[k] as int;
        &&& (r is NeedRead <==> will_load(before.nodes@[x]) && read_for(reads, before.nodes@[x].path@) is None)
        &&& (r matches NavStep::NeedRead(d) ==> d@ == before.nodes@[x].path@)
        &&& (r is ArenaFull ==> after == before)
        &&& (r is ArenaFull ==> will_load(before.nodes@[x]) && before.nodes@.len() + read_len(
            read_used(before.nodes@, x, reads),
        ) > usize::MAX)
        &&& (r matches NavStep::Done(msg) ==> toggled_at(
            before.nodes@,
            after.nodes@,
            x,
            read_used(before.nodes@, x, reads),
            show_files,
            before.show_hidden,
            before.follow_symlinks,
        ) && opt_text(msg) == error_report(after.nodes@[x]))
        &&& (r is Done && !before.nodes@[x].is_expanded && after.nodes@[x].is_expanded ==> after.flat_list@
            == before.flat_list@.take(k + 1) + visible_children(after.nodes@, x, after.nodes@[x].children@)
            + before.flat_list@.skip(k + 1))
        &&& (r is Done && before.nodes@[x].is_dir && before.nodes@[x].is_expanded ==> exists|m: int|
            0 <= m && k + 1 + m <= before.flat_list@.len() && after.flat_list@ == before.flat_list@.take(k + 1)
                + #[trigger] before.flat_list@.skip(k + 1 + m))
    })
    &&& (last_path_match(before.nodes@, before.flat_list@, path) is None ==> {
        &&& (r is NeedRead <==> !reads_cover(before.nodes@, before.nodes@.len() as int, path, reads))
        &&& (r matches NavStep::NeedRead(d) ==> exists|j: int|
            0 <= j < before.nodes@.len() && #[trigger] before.nodes@[j].path@ == d@ && path_eq(d@, path)
                && before.nodes@[j].is_dir && read_for(reads, d@) is None)
        &&& (!(r is NeedRead) ==> forall|j: int|
            #![trigger after.nodes@[j]]
            0 <= j < before.nodes@.len() && !path_eq(before.nodes@[j].path@, path) ==> after.nodes@[j]
                == before.nodes@[j])
        &&& (r is ArenaFull ==> exists|j: int|
            0 <= j < after.nodes@.len() && path_eq(#[trigger] after.nodes@[j].path@, path) && will_load(
                after.nodes@[j],
            ) && read_for(reads, after.nodes@[j].path@) is Some && after.nodes@.len() + read_len(
                read_used(after.nodes@, j, reads),
            ) > usize::MAX)
        &&& (r matches NavStep::Done(msg) ==> exists|ns: Seq<Seq<TreeNode>>|
            #[trigger] dfs_outcome(
                ns,
                dfs_targets(before.nodes@, 0, path),
                reads,
                show_files,
                before.show_hidden,
                before.follow_symlinks,
                opt_text(msg),
            ) && ns[0] == before.nodes@ && ns.last() == after.nodes@)
    })
}

impl Navigation {
    /// Toggles the node with the given path: the last visible one with that
    /// path, whose entries below are then removed from or inserted into the
    /// flat list; when no visible node has that path, every node of the
    /// tree with that path (searched depth first, not below one already
    /// toggled) until one reports an error, after which the flat list is
    /// rebuilt.  Returns the error message of the toggled node, if any.
    pub fn toggle_node(&mut self, path: &str, show_files: bool, reads: &Vec<DirListing>) -> (r: NavStep<
        Option<String>,
    >)
        requires
            old(self).wf(),
        ensures
            toggle_node_outcome(*old(self), *final(self), path@, show_files, reads@, r),
    {
        let ghost n1 = self.nodes@;
        let ghost p1 = self.parents@;
        let ghost flat1 = self.flat_list@;
        proof {
            lemma_visible_from_facts(n1, p1, 0);
            assert forall|j: int| 0 <= j < flat1.len() implies (#[trigger] flat1[j]) < n1.len() by {
                if j > 0 {
                    assert(placed_below(n1, p1, flat1, 0, j));
                }
            }
        }
        match self.index_of_path(path) {
            Some(k) => {
                proof {
                    lemma_last_path_match_valid(n1, flat1, path@);
                }
                let x = self.flat_list[k];
                let wl = self.nodes[x].is_dir && !self.nodes[x].is_expanded && !(
                self.nodes[x].children.len() > 0 && self.nodes[x].is_sorted);
                let found = if wl {
                    match find_read(reads, &self.nodes[x].path) {
                        Some(i) => Some(i),
                        None => {
                            return NavStep::NeedRead(self.nodes[x].path.clone());
                        },
                    }
                } else {
                    None
                };
                proof {
                    if found is Some {
                        lemma_read_for_valid(reads@, n1[x as int].path@);
                    }
                }
                let was_expanded = self.nodes[x].is_expanded;
                let empty = DirRead::Entries(Vec::new());
                let ok = match found {
                    Some(i) => self.toggle_at(x, &reads[i].read, show_files),
                    None => self.toggle_at(x, &empty, show_files),
                };
                if !ok {
                    return NavStep::ArenaFull;
                }
                let ghost n2 = self.nodes@;
                let msg = if self.nodes[x].has_error {
                    match &self.nodes[x].error_message {
                        Some(m) => Some(m.clone()),
                        None => None,
                    }
                } else {
                    None
                };
                proof {
                    assert(toggled_at(n1, n2, x as int, read_used(n1, x as int, reads@), show_files, self.show_hidden, self.follow_symlinks));
                    assert(n2[x as int].depth == n1[x as int].depth);
                    if was_expanded && n2[x as int].is_expanded {
                        assert(n2.skip(n1.len() as int).len() == 0);
                        assert(n2 =~= n1);
                    }
                }
                self.update_flat_after_toggle(k, was_expanded, Ghost(n1), Ghost(p1));
                NavStep::Done(msg)
            },
            None => {
                match self.missing_read_for_path(path, reads) {
                    Some(d) => {
                        return NavStep::NeedRead(d);
                    },
                    None => {},
                }
                proof {
                    assert forall|j: int, i: int|
                        #![trigger n1[j].children@[i]]
                        0 <= j < n1.len() && 0 <= i < n1[j].children@.len() implies j < n1[j].children@[i] < n1.len() by {
                    }
                }
                let (r, chain) = self.toggle_node_recursive(0, path, show_files, reads, Ghost(n1), Ghost(n1.len() as int));
                let ghost n3 = self.nodes@;
                self.rebuild_flat_list();
                match r {
                    Ok(m) => {
                        assert(dfs_outcome(
                            chain@,
                            dfs_targets(n1, 0, path@),
                            reads@,
                            show_files,
                            self.show_hidden,
                            self.follow_symlinks,
                            opt_text(m),
                        ) && chain@[0] == n1 && chain@.last() == self.nodes@);
                        NavStep::Done(m)
                    },
                    Err(()) => NavStep::ArenaFull,
                }
            },
        }
    }
}

/// A match found is a valid position whose node has that path.
proof fn lemma_last_path_match_valid(nodes: Seq<TreeNode>, flat: Seq<usize>, path: Seq<char>)
    requires
        last_path_match(nodes, flat, path) is Some,
    ensures
        0 <= last_path_match(nodes, flat, path)->0 < flat.len(),
        path_eq(nodes[flat[last_path_match(nodes, flat, path)->0] as int].path@, path),
    decreases flat.len(),
{
    if !path_eq(nodes[flat.last() as int].path@, path) {
        lemma_last_path_match_valid(nodes, flat.drop_last(), path);
    }
}

/// The root of a fresh tree for `path`, opened with `listing`: a node made
/// by `TreeNode::new` at depth 0, loaded with the read, and expanded.
/// `rest` are the children the load created (numbered from 1).
pub open spec fn root_opened(
    root: TreeNode,
    rest: Seq<TreeNode>,
    path: Seq<char>,
    listing: DirListing,
    show_files: bool,
    show_hidden: bool,
    follow_symlinks: bool,
) -> bool {
    &&& root.path@ == path
    &&& root.name@ == name_of(path)
    &&& root.is_dir == listing.is_dir
    &&& root.depth == 0
    &&& root.is_expanded
    &&& if !listing.is_dir {
        &&& root.children@.len() == 0
        &&& !root.has_error
        &&& root.error_message is None
        &&& !root.is_sorted
        &&& rest.len() == 0
    } else {
        match listing.read {
            DirRead::Failed(e) => {
                &&& root.children@.len() == 0
                &&& !root.is_sorted
                &&& root.has_error
                &&& opt_text(root.error_message) == Some(cannot_read_text(e@))
                &&& rest.len() == 0
            },
            DirRead::Entries(es) => {
                let errs = failed_texts(es@);
                &&& root.is_sorted
                &&& root.has_error == (errs.len() > 0)
                &&& opt_text(root.error_message) == if errs.len() > 0 {
                    Some(entry_errors_text(errs))
                } else {
                    None
                }
                &&& loaded_children(root, rest, listing.read, show_files, show_hidden, follow_symlinks, 1)
            },
        }
    }
}

/// `nav` is a fresh navigation over the tree rooted at `start_path`, opened
/// with the first read of that path in `reads`, the selection at the top.
pub open spec fn opened_at(
    nav: Navigation,
    start_path: Seq<char>,
    show_files: bool,
    show_hidden: bool,
    follow_symlinks: bool,
    reads: Seq<DirListing>,
) -> bool {
    &&& nav.wf()
    &&& nav.flat_matches_tree()
    &&& nav.root == 0
    &&& nav.selected == 0
    &&& nav.show_hidden == show_hidden
    &&& nav.follow_symlinks == follow_symlinks
    &&& read_for(reads, start_path) is Some
    &&& root_opened(
        nav.nodes@[0],
        nav.nodes@.skip(1),
        start_path,
        reads[read_for(reads, start_path)->0],
        show_files,
        show_hidden,
        follow_symlinks,
    )
}

impl Navigation {
    /// A navigation over a fresh tree rooted at `path`, opened with
    /// `listing`, with the selection at the top.  `None` when the arena
    /// cannot hold the directory's entries.
    fn new_rooted(
        path: String,
        listing: &DirListing,
        show_files: bool,
        show_hidden: bool,
        follow_symlinks: bool,
    ) -> (r: Option<Navigation>)
        ensures
            r matches Some(nav) ==> {
                &&& nav.wf()
                &&& nav.root == 0
                &&& nav.selected == 0
                &&& nav.show_hidden == show_hidden
                &&& nav.follow_symlinks == follow_symlinks
                &&& root_opened(
                    nav.nodes@[0],
                    nav.nodes@.skip(1),
                    path@,
                    *listing,
                    show_files,
                    show_hidden,
                    follow_symlinks,
                )
            },
            r is None ==> 1 + read_len(listing.read) > usize::MAX,
    {
        let count = read_item_count(&listing.read);
        if count > usize::MAX - 1 {
            return None;
        }
        let mut root = TreeNode::new(path, listing.is_dir, 0);
        let ghost fresh = root;
        let mut created = root.load_children(&listing.read, show_files, show_hidden, follow_symlinks, 1);
        root.is_expanded = true;
        let ghost made = created@;
        let ghost loaded = root;
        let mut nodes: Vec<TreeNode> = Vec::new();
        nodes.push(root);
        nodes.append(&mut created);
        let ghost p = seq![-1int] + Seq::new(made.len(), |i: int| 0int);
        proof {
            let n1 = seq![fresh];
            let p1 = seq![-1int];
            assert(arena_wf(n1, p1));
            assert(replaced_with_children(n1, 0, loaded, made));
            lemma_append_children(n1, p1, 0, loaded, made);
            assert(nodes@ =~= n1.update(0, loaded) + made);
            assert(p =~= p1 + Seq::new(made.len(), |i: int| 0int));
            assert(nodes@.skip(1) =~= made);
        }
        let mut nav = Navigation {
            nodes,
            root: 0,
            flat_list: Vec::new(),
            selected: 0,
            show_hidden,
            follow_symlinks,
            parents: Ghost(p),
        };
        nav.rebuild_flat_list();
        Some(nav)
    }

    /// Opens the tree at `start_path`: its root is loaded and expanded, and
    /// the selection is on the root.
    pub fn new(
        start_path: String,
        show_files: bool,
        show_hidden: bool,
        follow_symlinks: bool,
        reads: &Vec<DirListing>,
    ) -> (r: NavStep<Navigation>)
        ensures
            r is NeedRead <==> read_for(reads@, start_path@) is None,
            r matches NavStep::NeedRead(d) ==> d@ == start_path@,
            r is ArenaFull ==> {
                let l = reads@[read_for(reads@, start_path@)->0];
                1 + read_len(l.read) > usize::MAX
            },
            r matches NavStep::Done(nav) ==> opened_at(nav, start_path@, show_files, show_hidden, follow_symlinks, reads@),
    {
        match find_read(reads, &start_path) {
            None => NavStep::NeedRead(start_path),
            Some(i) => {
                proof {
                    lemma_read_for_valid(reads@, start_path@);
                }
                match Navigation::new_rooted(start_path, &reads[i], show_files, show_hidden, follow_symlinks) {
                    Some(nav) => NavStep::Done(nav),
                    None => NavStep::ArenaFull,
                }
            },
        }
    }
}

/// The root after `reload_tree`: the same node with its children dropped
/// and loaded again from `read` (numbered from 1), the error flag kept.
pub open spec fn root_reloaded(
    old: TreeNode,
    new: TreeNode,
    rest: Seq<TreeNode>,
    read: DirRead,
    show_files: bool,
    show_hidden: bool,
    follow_symlinks: bool,
) -> bool {
    &&& new.path == old.path
    &&& new.name == old.name
    &&& new.is_dir == old.is_dir
    &&& new.is_expanded == old.is_expanded
    &&& new.depth == old.depth
    &&& match read {
        DirRead::Failed(e) => {
            &&& new.children@.len() == 0
            &&& new.is_sorted == old.is_sorted
            &&& new.has_error
            &&& opt_text(new.error_message) == Some(cannot_read_text(e@))
            &&& rest.len() == 0
        },
        DirRead::Entries(es) => {
            let errs = failed_texts(es@);
            &&& new.is_sorted
            &&& new.has_error == (old.has_error || errs.len() > 0)
            &&& if errs.len() > 0 {
                opt_text(new.error_message) == Some(entry_errors_text(errs))
            } else {
                new.error_message == old.error_message
            }
            &&& loaded_children(new, rest, read, show_files, show_hidden, follow_symlinks, 1)
        },
    }
}

/// What `go_to_parent(show_files, reads)` gives from `before`: the
/// navigation `after` and the answer `r`.
pub open spec fn go_to_parent_outcome(
    before: Navigation,
    after: Navigation,
    show_files: bool,
    reads: Seq<DirListing>,
    r: NavStep<()>,
) -> bool {
    &&& after.wf()
    &&& after.flat_matches_tree()
    &&& after.show_hidden == before.show_hidden
    &&& after.follow_symlinks == before.follow_symlinks
    &&& (!(r is Done) ==> after == before)
    &&& (path_parent(before.nodes@[0].path@) is None ==> r is Done && after == before)
    &&& (path_parent(before.nodes@[0].path@) matches Some(pp) ==> {
        &&& (r is NeedRead <==> read_for(reads, pp) is None)
        &&& (r matches NavStep::NeedRead(d) ==> d@ == pp)
        &&& (r is ArenaFull ==> 1 + read_len(reads[read_for(reads, pp)->0].read) > usize::MAX)
        &&& (r is Done ==> root_opened(
            after.nodes@[0],
            after.nodes@.skip(1),
            pp,
            reads[read_for(reads, pp)->0],
            show_files,
            before.show_hidden,
            before.follow_symlinks,
        ) && after.selected == match last_path_match(after.nodes@, after.flat_list@, before.nodes@[0].path@) {
            Some(k) => k,
            None => before.selected as int,
        })
    })
}

/// What `reload_tree(show_files, reads)` gives from `before`: the
/// navigation `after` and the answer `r`.
pub open spec fn reload_outcome(
    before: Navigation,
    after: Navigation,
    show_files: bool,
    reads: Seq<DirListing>,
    r: NavStep<()>,
) -> bool {
    &&& after.wf()
    &&& after.flat_matches_tree()
    &&& after.selected == before.selected
    &&& after.show_hidden == before.show_hidden
    &&& after.follow_symlinks == before.follow_symlinks
    &&& (!(r is Done) ==> after == before)
    &&& (!(before.nodes@[0].is_expanded && before.nodes@[0].is_dir) ==> r is Done && after == before)
    &&& (before.nodes@[0].is_expanded && before.nodes@[0].is_dir ==> {
        &&& (r is NeedRead <==> read_for(reads, before.nodes@[0].path@) is None)
        &&& (r matches NavStep::NeedRead(d) ==> d@ == before.nodes@[0].path@)
        &&& (r is ArenaFull ==> 1 + read_len(reads[read_for(reads, before.nodes@[0].path@)->0].read) > usize::MAX)
        &&& (r is Done ==> root_reloaded(
            before.nodes@[0],
            after.nodes@[0],
            after.nodes@.skip(1),
            reads[read_for(reads, before.nodes@[0].path@)->0].read,
            show_files,
            before.show_hidden,
            before.follow_symlinks,
        ))
    })
}

impl Navigation {
    /// Replaces the tree with a fresh one rooted at the parent directory of
    /// the current root, and selects the old root in it when it is shown.
    /// Nothing happens when the root has no parent.
    pub fn go_to_parent(&mut self, show_files: bool, reads: &Vec<DirListing>) -> (r: NavStep<()>)
        requires
            old(self).wf(),
        ensures
            go_to_parent_outcome(*old(self), *final(self), show_files, reads@, r),
    {
        let parent_path = parent(self.nodes[0].path.as_str());
        match parent_path {
            None => NavStep::Done(()),
            Some(pp) => {
                match find_read(reads, &pp) {
                    None => NavStep::NeedRead(pp),
                    Some(i) => {
                        proof {
                            lemma_read_for_valid(reads@, pp@);
                        }
                        let current_path = self.nodes[0].path.clone();
                        match Navigation::new_rooted(pp, &reads[i], show_files, self.show_hidden, self.follow_symlinks) {
                            None => NavStep::ArenaFull,
                            Some(nav) => {
                                let found = nav.index_of_path(current_path.as_str());
                                self.nodes = nav.nodes;
                                self.parents = nav.parents;
                                self.root = nav.root;
                                self.flat_list = nav.flat_list;
                                match found {
                                    Some(idx) => {
                                        self.selected = idx;
                                    },
                                    None => {},
                                }
                                NavStep::Done(())
                            },
                        }
                    },
                }
            },
        }
    }

    /// Reloads the children of an expanded root directory from a fresh read;
    /// everything below them is dropped.  A collapsed root or a file root is
    /// left as it is.
    pub fn reload_tree(&mut self, show_files: bool, reads: &Vec<DirListing>) -> (r: NavStep<()>)
        requires
            old(self).wf(),
        ensures
            reload_outcome(*old(self), *final(self), show_files, reads@, r),
    {
        if !(self.nodes[0].is_expanded && self.nodes[0].is_dir) {
            return NavStep::Done(());
        }
        let i = match find_read(reads, &self.nodes[0].path) {
            None => {
                return NavStep::NeedRead(self.nodes[0].path.clone());
            },
            Some(i) => i,
        };
        proof {
            lemma_read_for_valid(reads@, self.nodes@[0].path@);
        }
        let count = read_item_count(&reads[i].read);
        if count > usize::MAX - 1 {
            return NavStep::ArenaFull;
        }
        let ghost old_root = self.nodes@[0];
        self.nodes.truncate(1);
        let mut root = self.nodes.pop().unwrap();
        root.children.clear();
        let ghost cleared = root;
        let mut created = root.load_children(&reads[i].read, show_files, self.show_hidden, self.follow_symlinks, 1);
        let ghost loaded = root;
        let ghost made = created@;
        let mut nodes: Vec<TreeNode> = Vec::new();
        nodes.push(root);
        nodes.append(&mut created);
        let ghost p = seq![-1int] + Seq::new(made.len(), |i: int| 0int);
        proof {
            let n1 = seq![cleared];
            let p1 = seq![-1int];
            assert(arena_wf(n1, p1));
            assert(replaced_with_children(n1, 0, loaded, made));
            lemma_append_children(n1, p1, 0, loaded, made);
            assert(nodes@ =~= n1.update(0, loaded) + made);
            assert(p =~= p1 + Seq::new(made.len(), |i: int| 0int));
            assert(nodes@.skip(1) =~= made);
        }
        self.nodes = nodes;
        self.parents = Ghost(p);
        self.rebuild_flat_list();
        NavStep::Done(())
    }
}

/// Why the search stopped at node `y` of `nodes`, which it had to load:
/// `NeedRead` with its path when `reads` has no read of it, `ArenaFull`
/// when the arena cannot hold the entries of its read.
pub open spec fn stop_reason(nodes: Seq<TreeNode>, y: int, reads: Seq<DirListing>, r: NavStep<()>) -> bool {
    &&& 0 <= y < nodes.len()
    &&& match r {
        NavStep::NeedRead(d) => d@ == nodes[y].path@ && read_for(reads, d@) is None,
        NavStep::ArenaFull => read_for(reads, nodes[y].path@) matches Some(i) && nodes.len() + read_len(
            reads[i].read,
        ) > usize::MAX,
        NavStep::Done(_) => false,
    }
}

/// How the search for a path went at one node: the node has the path, or
/// it is off the way to it, or it is on the way and was opened, after which
/// its children were searched (the traces of those visited, in order), or
/// it is on the way and had to be loaded, and the search stopped there
/// (at this node of the arena).
pub enum ExpandTrace {
    Found,
    Off,
    Opened(Seq<ExpandTrace>),
    Stopped(int),
}

/// Whether the search reached the path.
pub open spec fn found_in(t: ExpandTrace) -> bool
    decreases t,
{
    match t {
        ExpandTrace::Found => true,
        ExpandTrace::Off => false,
        ExpandTrace::Opened(subs) => subs.len() > 0 && found_in(subs.last()),
        ExpandTrace::Stopped(_) => false,
    }
}

/// Whether the search stopped at a node it had to load.
pub open spec fn stopped_in(t: ExpandTrace) -> bool
    decreases t,
{
    match t {
        ExpandTrace::Stopped(_) => true,
        ExpandTrace::Opened(subs) => subs.len() > 0 && stopped_in(subs.last()),
        _ => false,
    }
}

/// Opening node `x` on the way to a path: a directory without children is
/// first loaded with the first read of its path (the children appended to
/// the arena); then the node is expanded.
pub open spec fn expand_step(
    a: Seq<TreeNode>,
    b: Seq<TreeNode>,
    x: int,
    reads: Seq<DirListing>,
    show_files: bool,
    show_hidden: bool,
    follow_symlinks: bool,
) -> bool {
    &&& 0 <= x < a.len()
    &&& if a[x].children@.len() == 0 && a[x].is_dir {
        let rd = reads[read_for(reads, a[x].path@)->0].read;
        &&& read_for(reads, a[x].path@) is Some
        &&& changed_only_at(a, b, x)
        &&& b[x].is_expanded
        &&& loaded_rest(a[x], TreeNode { is_expanded: a[x].is_expanded, ..b[x] }, rd)
        &&& loaded_children(b[x], b.skip(a.len() as int), rd, show_files, show_hidden, follow_symlinks, a.len() as int)
    } else {
        b == a.update(x, TreeNode { is_expanded: true, ..a[x] })
    }
}

/// The arenas `ns` are those of searching from node `x` (in `ns[0]`) for
/// `target` as the trace `t` says: one opening per arena step.
pub open spec fn expand_traced(
    ns: Seq<Seq<TreeNode>>,
    x: int,
    t: ExpandTrace,
    target: Seq<char>,
    reads: Seq<DirListing>,
    show_files: bool,
    show_hidden: bool,
    follow_symlinks: bool,
) -> bool
    decreases t, 2nat,
{
    &&& ns.len() == steps(t) + 1
    &&& 0 <= x < ns[0].len()
    &&& match t {
        ExpandTrace::Found => ns.len() == 1 && path_eq(ns[0][x].path@, target),
        ExpandTrace::Off => {
            &&& ns.len() == 1
            &&& !path_eq(ns[0][x].path@, target)
            &&& !path_starts_with(target, ns[0][x].path@)
        },
        ExpandTrace::Opened(subs) => {
            &&& ns.len() >= 2
            &&& !path_eq(ns[0][x].path@, target)
            &&& path_starts_with(target, ns[0][x].path@)
            &&& expand_step(ns[0], ns[1], x, reads, show_files, show_hidden, follow_symlinks)
            &&& visits(ns.skip(1), ns[1][x].children@, subs, target, reads, show_files, show_hidden, follow_symlinks)
            &&& (!found_in(t) && !stopped_in(t) ==> subs.len() == ns[1][x].children@.len())
        },
        ExpandTrace::Stopped(y) => {
            &&& y == x
            &&& ns.len() == 1
            &&& !path_eq(ns[0][x].path@, target)
            &&& path_starts_with(target, ns[0][x].path@)
            &&& ns[0][x].is_dir
            &&& ns[0][x].children@.len() == 0
        },
    }
}

/// The node where a stopped search stopped.
pub open spec fn stop_node(t: ExpandTrace) -> int
    decreases t,
{
    match t {
        ExpandTrace::Stopped(y) => y,
        ExpandTrace::Opened(subs) => if subs.len() > 0 {
            stop_node(subs.last())
        } else {
            -1
        },
        _ => -1,
    }
}

/// The number of openings a search trace records.
pub open spec fn steps(t: ExpandTrace) -> nat
    decreases t, 1nat,
{
    match t {
        ExpandTrace::Opened(subs) => 1 + steps_all(subs),
        _ => 0,
    }
}

/// The number of openings the traces record together.
pub open spec fn steps_all(subs: Seq<ExpandTrace>) -> nat
    decreases subs, 0nat,
{
    if subs.len() == 0 {
        0
    } else {
        steps(subs[0]) + steps_all(subs.drop_first())
    }
}

/// The arenas `ns` are those of searching the first `subs.len()` children
/// `cs` one after another, as the traces `subs` say; only the last may
/// have reached the path.
pub open spec fn visits(
    ns: Seq<Seq<TreeNode>>,
    cs: Seq<usize>,
    subs: Seq<ExpandTrace>,
    target: Seq<char>,
    reads: Seq<DirListing>,
    show_files: bool,
    show_hidden: bool,
    follow_symlinks: bool,
) -> bool
    decreases subs, 0nat,
{
    if subs.len() == 0 {
        ns.len() == 1
    } else {
        let m = steps(subs[0]) + 1;
        &&& m <= ns.len()
        &&& cs.len() >= 1
        &&& expand_traced(ns.take(m as int), cs[0] as int, subs[0], target, reads, show_files, show_hidden, follow_symlinks)
        &&& (found_in(subs[0]) || stopped_in(subs[0]) ==> subs.len() == 1 && m == ns.len())
        &&& visits(
            ns.skip(m - 1),
            cs.drop_first(),
            subs.drop_first(),
            target,
            reads,
            show_files,
            show_hidden,
            follow_symlinks,
        )
    }
}

/// Node `b` is node `a` expanded on the way to `target`: `a`'s path is a
/// proper prefix of `target`; `b` keeps `a`'s path, name, kind and depth.
pub open spec fn expanded_toward(a: TreeNode, b: TreeNode, target: Seq<char>) -> bool {
    &&& path_starts_with(target, a.path@)
    &&& !path_eq(a.path@, target)
    &&& b.is_expanded
    &&& b.path == a.path
    &&& b.name == a.name
    &&& b.is_dir == a.is_dir
    &&& b.depth == a.depth
}

proof fn lemma_visits_len(
    ns: Seq<Seq<TreeNode>>,
    cs: Seq<usize>,
    subs: Seq<ExpandTrace>,
    target: Seq<char>,
    reads: Seq<DirListing>,
    show_files: bool,
    show_hidden: bool,
    follow_symlinks: bool,
)
    requires
        visits(ns, cs, subs, target, reads, show_files, show_hidden, follow_symlinks),
    ensures
        ns.len() == steps_all(subs) + 1,
    decreases subs.len(),
{
    if subs.len() > 0 {
        let m: int = (steps(subs[0]) + 1) as int;
        lemma_visits_len(ns.skip(m - 1), cs.drop_first(), subs.drop_first(), target, reads, show_files, show_hidden, follow_symlinks);
    }
}

proof fn lemma_visits_push(
    ns: Seq<Seq<TreeNode>>,
    cs: Seq<usize>,
    subs: Seq<ExpandTrace>,
    sb: Seq<Seq<TreeNode>>,
    st: ExpandTrace,
    target: Seq<char>,
    reads: Seq<DirListing>,
    show_files: bool,
    show_hidden: bool,
    follow_symlinks: bool,
)
    requires
        visits(ns, cs, subs, target, reads, show_files, show_hidden, follow_symlinks),
        forall|i: int| 0 <= i < subs.len() ==> !found_in(#[trigger] subs[i]) && !stopped_in(subs[i]),
        subs.len() < cs.len(),
        expand_traced(sb, cs[subs.len() as int] as int, st, target, reads, show_files, show_hidden, follow_symlinks),
        ns.len() >= 1,
        ns.last() == sb[0],
    ensures
        visits(ns + sb.skip(1), cs, subs.push(st), target, reads, show_files, show_hidden, follow_symlinks),
    decreases subs.len(),
{
    let n2 = ns + sb.skip(1);
    let s2 = subs.push(st);
    if subs.len() == 0 {
        assert(ns.len() == 1);
        assert(n2 =~= sb);
        let m = sb.len() as int;
        assert(n2.take(m) =~= sb);
        assert(s2[0] == st);
        assert(n2.skip(m - 1).len() == 1);
        assert(s2.drop_first() =~= Seq::<ExpandTrace>::empty());
        assert(visits(n2.skip(m - 1), cs.drop_first(), s2.drop_first(), target, reads, show_files, show_hidden, follow_symlinks));
        assert(expand_traced(n2.take(m), cs[0] as int, s2[0], target, reads, show_files, show_hidden, follow_symlinks));
    } else {
        let m: int = (steps(subs[0]) + 1) as int;
        assert(!found_in(subs[0]) && !stopped_in(subs[0]));
        let rest = ns.skip(m - 1);
        assert forall|i: int| 0 <= i < subs.drop_first().len() implies !found_in(#[trigger] subs.drop_first()[i])
            && !stopped_in(subs.drop_first()[i]) by {
            assert(subs.drop_first()[i] == subs[i + 1]);
        }
        assert(cs.drop_first()[subs.drop_first().len() as int] == cs[subs.len() as int]);
        assert(rest.last() == ns.last());
        lemma_visits_push(rest, cs.drop_first(), subs.drop_first(), sb, st, target, reads, show_files, show_hidden, follow_symlinks);
        assert(n2.take(m) =~= ns.take(m));
        assert(n2.skip(m - 1) =~= rest + sb.skip(1));
        assert(s2.drop_first() =~= subs.drop_first().push(st));
        assert(s2[0] == subs[0]);
        assert(expand_traced(n2.take(m), cs[0] as int, s2[0], target, reads, show_files, show_hidden, follow_symlinks));
    }
}

/// What `expand_path_to_node(target, show_files, reads)` gives from
/// `before`: the navigation `after` and the answer `r`.
pub open spec fn expand_outcome(
    before: Navigation,
    after: Navigation,
    target: Seq<char>,
    show_files: bool,
    reads: Seq<DirListing>,
    r: NavStep<()>,
) -> bool {
    &&& (after.wf())
    &&& (after.flat_matches_tree())
    &&& (after.show_hidden == before.show_hidden)
    &&& (after.follow_symlinks == before.follow_symlinks)
    &&& (before.nodes@.len() <= after.nodes@.len())
    &&& (forall|j: int|
        #![trigger after.nodes@[j]]
        0 <= j < before.nodes@.len() ==> after.nodes@[j] == before.nodes@[j]
            || expanded_toward(before.nodes@[j], after.nodes@[j], target))
    &&& (r matches NavStep::NeedRead(d) ==> read_for(reads, d@) is None)
    &&& (!(r is Done) ==> exists|ns: Seq<Seq<TreeNode>>, t: ExpandTrace|
        #[trigger] expand_traced(
            ns,
            0,
            t,
            target,
            reads,
            show_files,
            before.show_hidden,
            before.follow_symlinks,
        ) && stopped_in(t) && ns[0] == before.nodes@ && ns.last() == after.nodes@
            && stop_reason(after.nodes@, stop_node(t), reads, r))
    &&& (r is Done ==> exists|ns: Seq<Seq<TreeNode>>, t: ExpandTrace|
        #[trigger] expand_traced(
            ns,
            0,
            t,
            target,
            reads,
            show_files,
            before.show_hidden,
            before.follow_symlinks,
        ) && !stopped_in(t) && ns[0] == before.nodes@ && ns.last() == after.nodes@)
    &&& (r is Done ==> after.selected == match last_path_match(after.nodes@, after.flat_list@, target) {
        Some(k) => k,
        None => before.selected as int,
    })
    &&& (!(r is Done) ==> after.selected == before.selected)
}

impl Navigation {
    /// Loads the children of node `x` from `read`, appending them to the
    /// arena.  Returns false, changing nothing, when the arena cannot hold them.
    fn load_at(&mut self, x: usize, read: &DirRead, show_files: bool) -> (ok: bool)
        requires
            old(self).arena_ok(),
            x < old(self).nodes@.len(),
        ensures
            ok ==> final(self).arena_ok(),
            ok ==> changed_only_at(old(self).nodes@, final(self).nodes@, x as int),
            ok ==> final(self).nodes@[x as int].path == old(self).nodes@[x as int].path,
            ok ==> final(self).nodes@[x as int].name == old(self).nodes@[x as int].name,
            ok ==> final(self).nodes@[x as int].is_dir == old(self).nodes@[x as int].is_dir,
            ok ==> final(self).nodes@[x as int].depth == old(self).nodes@[x as int].depth,
            ok && needs_load(old(self).nodes@[x as int]) ==> loaded_rest(
                old(self).nodes@[x as int],
                final(self).nodes@[x as int],
                *read,
            ) && loaded_children(
                final(self).nodes@[x as int],
                final(self).nodes@.skip(old(self).nodes@.len() as int),
                *read,
                show_files,
                old(self).show_hidden,
                old(self).follow_symlinks,
                old(self).nodes@.len() as int,
            ),
            ok == (old(self).nodes@.len() + read_len(*read) <= usize::MAX),
            !ok ==> *final(self) == *old(self),
            final(self).flat_list == old(self).flat_list,
            final(self).selected == old(self).selected,
            final(self).root == old(self).root,
            final(self).show_hidden == old(self).show_hidden,
            final(self).follow_symlinks == old(self).follow_symlinks,
    {
        let first = self.nodes.len();
        let count = read_item_count(read);
        if count > usize::MAX - first {
            return false;
        }
        let ghost n1 = self.nodes@;
        let ghost p1 = self.parents@;
        let sh = self.show_hidden;
        let fs = self.follow_symlinks;
        proof {
            assert(n1[x as int].depth <= x);
        }
        let mut created = self.nodes[x].load_children(read, show_files, sh, fs, first);
        let ghost nx = self.nodes@[x as int];
        let ghost m = created@.len();
        let ghost made = created@;
        self.nodes.append(&mut created);
        let ghost n2 = self.nodes@;
        self.parents = Ghost(p1 + Seq::new(m, |i: int| x as int));
        proof {
            assert(n2 =~= n1.update(x as int, nx) + made);
            assert(n2.len() == self.nodes.len());
            assert(n2.skip(n1.len() as int) =~= made);
            lemma_append_children(n1, p1, x as int, nx, made);
        }
        true
    }

    /// Expands, depth first from `node`, the nodes whose path is a proper
    /// prefix of `target`, loading a directory without children first;
    /// returns whether a node with path `target` was reached.
    fn expand_path_recursive(
        &mut self,
        node: usize,
        target: &str,
        show_files: bool,
        reads: &Vec<DirListing>,
    ) -> (r: (Result<bool, NavStep<()>>, Ghost<Seq<Seq<TreeNode>>>, Ghost<ExpandTrace>))
        requires
            old(self).arena_ok(),
            node < old(self).nodes@.len(),
        ensures
            final(self).arena_ok(),
            old(self).nodes@.len() <= final(self).nodes@.len(),
            forall|j: int|
                #![trigger final(self).nodes@[j]]
                0 <= j < old(self).nodes@.len() ==> final(self).nodes@[j] == old(self).nodes@[j]
                    || expanded_toward(old(self).nodes@[j], final(self).nodes@[j], target@),
            forall|j: int| #![trigger final(self).nodes@[j]] 0 <= j < node ==> final(self).nodes@[j] == old(self).nodes@[j],
            r.0 matches Err(e) ==> {
                &&& expand_traced(
                    r.1@,
                    node as int,
                    r.2@,
                    target@,
                    reads@,
                    show_files,
                    old(self).show_hidden,
                    old(self).follow_symlinks,
                )
                &&& stopped_in(r.2@)
                &&& r.1@[0] == old(self).nodes@
                &&& r.1@.last() == final(self).nodes@
                &&& stop_reason(final(self).nodes@, stop_node(r.2@), reads@, e)
            },
            r.0 matches Ok(f) ==> {
                &&& expand_traced(
                    r.1@,
                    node as int,
                    r.2@,
                    target@,
                    reads@,
                    show_files,
                    old(self).show_hidden,
                    old(self).follow_symlinks,
                )
                &&& found_in(r.2@) == f
                &&& !stopped_in(r.2@)
                &&& r.1@[0] == old(self).nodes@
                &&& r.1@.last() == final(self).nodes@
            },
            final(self).flat_list == old(self).flat_list,
            final(self).selected == old(self).selected,
            final(self).root == old(self).root,
            final(self).show_hidden == old(self).show_hidden,
            final(self).follow_symlinks == old(self).follow_symlinks,
        decreases usize::MAX - node,
    {
        let ghost n0 = self.nodes@;
        let ghost one = seq![n0];
        if same_path(self.nodes[node].path.as_str(), target) {
            return (Ok(true), Ghost(one), Ghost(ExpandTrace::Found));
        }
        if !starts_with(target, self.nodes[node].path.as_str()) {
            return (Ok(false), Ghost(one), Ghost(ExpandTrace::Off));
        }
        let ghost mut loaded = false;
        if self.nodes[node].children.len() == 0 && self.nodes[node].is_dir {
            let i = match find_read(reads, &self.nodes[node].path) {
                None => {
                    let d = self.nodes[node].path.clone();
                    proof {
                        assert(self.nodes@[node as int].path@ == d@);
                    }
                    return (Err(NavStep::NeedRead(d)), Ghost(one), Ghost(ExpandTrace::Stopped(node as int)));
                },
                Some(i) => i,
            };
            proof {
                lemma_read_for_valid(reads@, self.nodes@[node as int].path@);
            }
            if !self.load_at(node, &reads[i].read, show_files) {
                return (Err(NavStep::ArenaFull), Ghost(one), Ghost(ExpandTrace::Stopped(node as int)));
            }
            proof {
                loaded = true;
            }
        }
        let ghost nl = self.nodes@;
        assert(n0.len() <= self.nodes@.len());
        self.nodes[node].is_expanded = true;
        let ghost n1 = self.nodes@;
        proof {
            assert(expanded_toward(n0[node as int], n1[node as int], target@));
            if loaded {
                assert(n1 =~= nl.update(node as int, TreeNode { is_expanded: true, ..nl[node as int] }));
                assert((TreeNode { is_expanded: n0[node as int].is_expanded, ..n1[node as int] }) == nl[node as int]);
                assert(n1.skip(n0.len() as int) =~= nl.skip(n0.len() as int));
                assert(changed_only_at(n0, n1, node as int));
            } else {
                assert(n1 =~= n0.update(node as int, TreeNode { is_expanded: true, ..n0[node as int] }));
            }
            assert(expand_step(n0, n1, node as int, reads@, show_files, self.show_hidden, self.follow_symlinks));
        }
        let n = self.nodes[node].children.len();
        let ghost cs = n1[node as int].children@;
        let ghost mut ch: Seq<Seq<TreeNode>> = seq![n1];
        let ghost mut subs: Seq<ExpandTrace> = Seq::empty();
        let mut j: usize = 0;
        while j < n
            invariant
                self.arena_ok(),
                node < n1.len(),
                n1.len() <= self.nodes@.len(),
                n0.len() <= n1.len(),
                n0.len() == old(self).nodes@.len(),
                n0 == old(self).nodes@,
                self.nodes@[node as int] == n1[node as int],
                expanded_toward(n0[node as int], n1[node as int], target@),
                n == n1[node as int].children@.len(),
                cs == n1[node as int].children@,
                j <= n,
                forall|k: int|
                    #![trigger self.nodes@[k]]
                    0 <= k < n0.len() ==> self.nodes@[k] == n0[k] || expanded_toward(n0[k], self.nodes@[k], target@),
                forall|k: int| #![trigger self.nodes@[k]] 0 <= k <= node ==> k == node || self.nodes@[k] == n0[k],
                self.flat_list == old(self).flat_list,
                self.selected == old(self).selected,
                self.root == old(self).root,
                self.show_hidden == old(self).show_hidden,
                self.follow_symlinks == old(self).follow_symlinks,
                ch.len() >= 1,
                ch[0] == n1,
                ch.last() == self.nodes@,
                subs.len() == j,
                expand_step(n0, n1, node as int, reads@, show_files, old(self).show_hidden, old(self).follow_symlinks),
                forall|i: int| 0 <= i < subs.len() ==> !found_in(#[trigger] subs[i]) && !stopped_in(subs[i]),
                visits(ch, cs, subs, target@, reads@, show_files, old(self).show_hidden, old(self).follow_symlinks),
            decreases n - j,
        {
            let c = self.nodes[node].children[j];
            proof {
                assert(self.nodes@[node as int].children@[j as int] == c);
                assert(node < c);
            }
            let ghost before = self.nodes@;
            let (found, sub, st) = self.expand_path_recursive(c, target, show_files, reads);
            proof {
                assert forall|k: int| #![trigger self.nodes@[k]] 0 <= k < n0.len() implies self.nodes@[k] == n0[k]
                    || expanded_toward(n0[k], self.nodes@[k], target@) by {
                    if self.nodes@[k] != before[k] {
                        assert(expanded_toward(before[k], self.nodes@[k], target@));
                        if before[k] != n0[k] {
                            assert(expanded_toward(n0[k], before[k], target@));
                        }
                    }
                }
            }
            match found {
                Err(e) => {
                    let ghost subs2 = subs.push(st@);
                    let ghost trace = ExpandTrace::Opened(subs2);
                    let ghost all = seq![n0] + ch + sub@.skip(1);
                    proof {
                        assert(cs[j as int] == c);
                        lemma_visits_push(ch, cs, subs, sub@, st@, target@, reads@, show_files, self.show_hidden, self.follow_symlinks);
                        assert(all.skip(1) =~= ch + sub@.skip(1));
                        assert(subs2.last() == st@);
                        lemma_visits_len(ch + sub@.skip(1), cs, subs2, target@, reads@, show_files, self.show_hidden, self.follow_symlinks);
                        assert(all[1] == n1);
                        assert(all[0] == n0);
                        assert(sub@.len() >= 1);
                        if sub@.len() == 1 {
                            assert(all.last() == ch.last());
                        } else {
                            assert(all.last() == sub@.last());
                        }
                    }
                    return (Err(e), Ghost(all), Ghost(trace));
                },
                Ok(f) => {
                    proof {
                        assert(cs[j as int] == c);
                        lemma_visits_push(ch, cs, subs, sub@, st@, target@, reads@, show_files, self.show_hidden, self.follow_symlinks);
                        ch = ch + sub@.skip(1);
                        subs = subs.push(st@);
                    }
                    if f {
                        let ghost trace = ExpandTrace::Opened(subs);
                        let ghost all = seq![n0] + ch;
                        proof {
                            assert(all.skip(1) =~= ch);
                            assert(subs.last() == st@);
                            lemma_visits_len(ch, cs, subs, target@, reads@, show_files, self.show_hidden, self.follow_symlinks);
                            assert(all[1] == n1);
                        }
                        return (Ok(true), Ghost(all), Ghost(trace));
                    }
                    proof {
                        assert forall|i: int| 0 <= i < subs.len() implies !found_in(#[trigger] subs[i]) && !stopped_in(subs[i]) by {
                            if i == subs.len() - 1 {
                                assert(subs[i] == st@);
                            }
                        }
                    }
                },
            }
            j = j + 1;
        }
        let ghost trace = ExpandTrace::Opened(subs);
        let ghost all = seq![n0] + ch;
        proof {
            assert(all.skip(1) =~= ch);
            if subs.len() > 0 {
                assert(!found_in(subs[subs.len() - 1]));
            }
            lemma_visits_len(ch, cs, subs, target@, reads@, show_files, self.show_hidden, self.follow_symlinks);
        }
        (Ok(false), Ghost(all), Ghost(trace))
    }

    /// Expands the nodes on the way from the root to `target_path` (loading
    /// directories as needed), rebuilds the flat list, and selects the last
    /// shown node with that path, if any.  A `NeedRead` or `ArenaFull` answer
    /// comes from the first directory, in the search's depth-first order,
    /// that had to be loaded and could not be: the nodes opened before it
    /// stay expanded, and calling again with the missing read continues
    /// from there.
    pub fn expand_path_to_node(&mut self, target_path: &str, show_files: bool, reads: &Vec<DirListing>) -> (r:
        NavStep<()>)
        requires
            old(self).wf(),
        ensures
            expand_outcome(*old(self), *final(self), target_path@, show_files, reads@, r),
    {
        let (result, chain, trace) = self.expand_path_recursive(0, target_path, show_files, reads);
        self.rebuild_flat_list();
        match result {
            Err(step) => {
                assert(expand_traced(
                    chain@,
                    0,
                    trace@,
                    target_path@,
                    reads@,
                    show_files,
                    self.show_hidden,
                    self.follow_symlinks,
                ) && chain@[0] == old(self).nodes@ && chain@.last() == self.nodes@);
                step
            },
            Ok(_) => {
                assert(expand_traced(
                    chain@,
                    0,
                    trace@,
                    target_path@,
                    reads@,
                    show_files,
                    self.show_hidden,
                    self.follow_symlinks,
                ) && chain@[0] == old(self).nodes@ && chain@.last() == self.nodes@);
                match self.index_of_path(target_path) {
                    Some(idx) => {
                        self.selected = idx;
                    },
                    None => {},
                }
                NavStep::Done(())
            },
        }
    }
}

impl Navigation {
    /// The children of a node of a well-formed navigation come after it in
    /// the arena.
    pub proof fn lemma_arena_children(&self, i: int)
        requires
            self.wf(),
            0 <= i < self.nodes@.len(),
        ensures
            forall|q: int|
                0 <= q < self.nodes@[i].children@.len() ==> i < #[trigger] self.nodes@[i].children@[q]
                    < self.nodes@.len(),
    {
        lemma_children_of_node(self.nodes@, self.parents@, i);
    }
}

/// Every node of a well-formed navigation is named by the final component
/// of its path.
pub proof fn lemma_node_names(nav: &Navigation)
    requires
        nav.wf(),
    ensures
        forall|i: int| 0 <= i < nav.nodes@.len() ==> (#[trigger] nav.nodes@[i]).name@ == name_of(nav.nodes@[i].path@),
{
}

/// No node appears twice in the flat list of a well-formed navigation.
pub proof fn lemma_flat_list_no_duplicates(nav: &Navigation)
    requires
        nav.wf(),
    ensures
        nav.flat_list@.no_duplicates(),
{
    lemma_visible_from_no_dup(nav.nodes@, nav.parents@, 0);
}

/// Every entry of the flat list of a well-formed navigation is a node of
/// its arena; the first entry is the root.
pub proof fn lemma_flat_list_in_arena(nav: &Navigation)
    requires
        nav.wf(),
    ensures
        nav.flat_list@.len() >= 1,
        nav.flat_list@[0] == nav.root,
        flat_in_arena(nav.nodes@, nav.flat_list@),
{
    lemma_visible_from_facts(nav.nodes@, nav.parents@, 0);
    assert forall|j: int| 0 <= j < nav.flat_list@.len() implies (#[trigger] nav.flat_list@[j]) < nav.nodes@.len() by {
        if j > 0 {
            assert(placed_below(nav.nodes@, nav.parents@, nav.flat_list@, 0, j));
        }
    }
}

/// Toggling a node twice gives back the same nodes, so the same flat list,
/// whenever neither toggle reads the disk: the node is a file, or a
/// directory whose children are loaded, and an open one has no error flag
/// (opening a directory with its error flag set leaves it closed).
pub proof fn lemma_toggle_twice_restores(
    n1: Seq<TreeNode>,
    n2: Seq<TreeNode>,
    n3: Seq<TreeNode>,
    x: int,
    read1: DirRead,
    read2: DirRead,
    show_files: bool,
    show_hidden: bool,
    follow_symlinks: bool,
)
    requires
        0 <= x < n1.len(),
        !needs_load(n1[x]),
        n1[x].is_expanded ==> !n1[x].has_error,
        toggled_at(n1, n2, x, read1, show_files, show_hidden, follow_symlinks),
        toggled_at(n2, n3, x, read2, show_files, show_hidden, follow_symlinks),
    ensures
        n3 == n1,
        visible_from(n3, 0) == visible_from(n1, 0),
{
    assert(n2.len() == n1.len());
    assert(n3.len() == n2.len());
    if n1[x].is_dir && !n1[x].is_expanded && n1[x].has_error {
        assert(n2[x] == n1[x]);
    }
    assert(n3[x] == n1[x]);
    assert(n3 =~= n1);
}

/// After the last entry with a path, no entry has it.
proof fn lemma_last_path_match_after(nodes: Seq<TreeNode>, flat: Seq<usize>, path: Seq<char>)
    requires
        last_path_match(nodes, flat, path) is Some,
    ensures
        forall|j: int|
            last_path_match(nodes, flat, path)->0 < j < flat.len() ==> !path_eq(
                nodes[#[trigger] flat[j] as int].path@,
                path,
            ),
    decreases flat.len(),
{
    lemma_last_path_match_valid(nodes, flat, path);
    if !path_eq(nodes[flat.last() as int].path@, path) {
        let d = flat.drop_last();
        lemma_last_path_match_after(nodes, d, path);
        assert forall|j: int| last_path_match(nodes, flat, path)->0 < j < flat.len() implies !path_eq(
            nodes[#[trigger] flat[j] as int].path@,
            path,
        ) by {
            if j < flat.len() - 1 {
                assert(d[j] == flat[j]);
            }
        }
    }
}

/// An entry with the path, and none after it with that path, is the last
/// match.
proof fn lemma_last_path_match_is(nodes: Seq<TreeNode>, flat: Seq<usize>, path: Seq<char>, k: int)
    requires
        0 <= k < flat.len(),
        path_eq(nodes[flat[k] as int].path@, path),
        forall|j: int| k < j < flat.len() ==> !path_eq(nodes[#[trigger] flat[j] as int].path@, path),
    ensures
        last_path_match(nodes, flat, path) == Some(k),
    decreases flat.len(),
{
    if k < flat.len() - 1 {
        let d = flat.drop_last();
        assert(flat.last() == flat[flat.len() - 1]);
        assert forall|j: int| k < j < d.len() implies !path_eq(nodes[#[trigger] d[j] as int].path@, path) by {
            assert(d[j] == flat[j]);
        }
        assert(d[k] == flat[k]);
        lemma_last_path_match_is(nodes, d, path, k);
    }
}

/// Toggling an open directory twice through `toggle_node`, with its
/// children loaded and no error flag, closes it and opens it again without
/// reading the disk: both calls succeed, the second reports no error, and
/// the tree, the flat list and the selection are as they were.
pub proof fn lemma_toggle_node_twice(
    n0: Navigation,
    n1: Navigation,
    n2: Navigation,
    path: Seq<char>,
    show_files: bool,
    reads1: Seq<DirListing>,
    reads2: Seq<DirListing>,
    r1: NavStep<Option<String>>,
    r2: NavStep<Option<String>>,
)
    requires
        n0.wf(),
        last_path_match(n0.nodes@, n0.flat_list@, path) matches Some(k) && {
            let n = n0.nodes@[n0.flat_list@[k] as int];
            &&& n.is_dir
            &&& n.is_expanded
            &&& !n.has_error
            &&& !needs_load(n)
        },
        toggle_node_outcome(n0, n1, path, show_files, reads1, r1),
        toggle_node_outcome(n1, n2, path, show_files, reads2, r2),
    ensures
        r1 is Done,
        r2 matches NavStep::Done(m) && m is None,
        n2.nodes@ == n0.nodes@,
        n2.flat_list@ == n0.flat_list@,
        n2.selected == n0.selected,
{
    let k = last_path_match(n0.nodes@, n0.flat_list@, path)->0;
    let f0 = n0.flat_list@;
    let x = f0[k] as int;
    lemma_last_path_match_valid(n0.nodes@, f0, path);
    lemma_last_path_match_after(n0.nodes@, f0, path);
    lemma_flat_list_in_arena(&n0);
    assert(!will_load(n0.nodes@[x]));
    assert(r1 is Done);
    let n1x = n1.nodes@[x];
    assert(n1x == (TreeNode { is_expanded: false, ..n0.nodes@[x] }));
    assert(n1.nodes@.len() == n0.nodes@.len()) by {
        assert(n1.nodes@.skip(n0.nodes@.len() as int).len() == 0);
    }
    let m = choose|m: int|
        0 <= m && k + 1 + m <= f0.len() && n1.flat_list@ == f0.take(k + 1) + #[trigger] f0.skip(k + 1 + m);
    let f1 = n1.flat_list@;
    assert(f1[k] == f0[k]);
    assert forall|j: int| k < j < f1.len() implies !path_eq(n1.nodes@[#[trigger] f1[j] as int].path@, path) by {
        assert(f1[j] == f0[j + m]);
        let y = f0[j + m] as int;
        assert(!path_eq(n0.nodes@[y].path@, path));
        if y != x {
            assert(n1.nodes@[y] == n0.nodes@[y]);
        }
    }
    lemma_last_path_match_is(n1.nodes@, f1, path, k);
    assert(!will_load(n1x));
    assert(r2 is Done);
    lemma_toggle_twice_restores(
        n0.nodes@,
        n1.nodes@,
        n2.nodes@,
        x,
        read_used(n0.nodes@, x, reads1),
        read_used(n1.nodes@, x, reads2),
        show_files,
        n0.show_hidden,
        n0.follow_symlinks,
    );
    assert(error_report(n2.nodes@[x]) is None);
}

/// Closed children are shown as themselves, one entry each.
proof fn lemma_closed_children_shown(nodes: Seq<TreeNode>, p: int, cs: Seq<usize>)
    requires
        0 <= p,
        forall|q: int| 0 <= q < cs.len() ==> p < #[trigger] cs[q] < nodes.len() && !nodes[cs[q] as int].is_expanded,
    ensures
        visible_children(nodes, p, cs) == cs,
    decreases cs.len(),
{
    if cs.len() > 0 {
        lemma_closed_children_shown(nodes, p, cs.drop_last());
        assert(cs[cs.len() - 1] == cs.last());
        assert(visible_from(nodes, cs.last() as int) =~= seq![cs.last()]);
        assert(cs =~= cs.drop_last().push(cs.last()));
    }
}

/// Opening a closed directory with `toggle_node` adds to the tree exactly
/// the entries of its read that the navigation's own options let through:
/// every new node is such an entry (with its path and kind), so with hidden
/// entries off no new node's name starts with a dot, with files off every
/// new node is a directory, and no symbolic link is added unless links are
/// followed; every such entry of the read becomes a child of the directory;
/// and every newly shown entry of the flat list is one of them.
pub proof fn lemma_toggle_node_opens_with_options(
    before: Navigation,
    after: Navigation,
    path: Seq<char>,
    show_files: bool,
    reads: Seq<DirListing>,
    r: NavStep<Option<String>>,
)
    requires
        before.wf(),
        toggle_node_outcome(before, after, path, show_files, reads, r),
        r is Done,
        last_path_match(before.nodes@, before.flat_list@, path) matches Some(k) && !before.nodes@[before.flat_list@[k] as int].is_expanded,
    ensures
        ({
            let x = before.flat_list@[last_path_match(before.nodes@, before.flat_list@, path)->0] as int;
            let items = read_items(read_used(before.nodes@, x, reads));
            let b = before.nodes@.len();
            &&& forall|i: int|
                b <= i < after.nodes@.len() ==> #[trigger] from_read(
                    items,
                    after.nodes@[i].path@,
                    after.nodes@[i].is_dir,
                    show_files,
                    before.show_hidden,
                    before.follow_symlinks,
                )
            &&& !before.show_hidden ==> forall|i: int| b <= i < after.nodes@.len() ==> !dotted(#[trigger] after.nodes@[i].name@)
            &&& !show_files ==> forall|i: int| b <= i < after.nodes@.len() ==> (#[trigger] after.nodes@[i]).is_dir
            &&& forall|i: int| b <= i < after.nodes@.len() ==> (#[trigger] after.nodes@[i]).depth == before.nodes@[x].depth + 1
            &&& forall|i: int, j: int|
                b <= i < j < after.nodes@.len() ==> !(!(#[trigger] after.nodes@[i]).is_dir && (
                #[trigger] after.nodes@[j]).is_dir) && (after.nodes@[i].is_dir == after.nodes@[j].is_dir ==> !seq_lt(
                    after.nodes@[j].name@,
                    after.nodes@[i].name@,
                ))
            &&& forall|q: int|
                0 <= q < after.flat_list@.len() && b <= (#[trigger] after.flat_list@[q]) ==> from_read(
                    items,
                    after.nodes@[after.flat_list@[q] as int].path@,
                    after.nodes@[after.flat_list@[q] as int].is_dir,
                    show_files,
                    before.show_hidden,
                    before.follow_symlinks,
                )
            &&& will_load(before.nodes@[x]) && after.nodes@[x].is_expanded ==> after.flat_list@
                == before.flat_list@.take(
                last_path_match(before.nodes@, before.flat_list@, path)->0 + 1,
            ) + after.nodes@[x].children@ + before.flat_list@.skip(
                last_path_match(before.nodes@, before.flat_list@, path)->0 + 1,
            )
            &&& will_load(before.nodes@[x]) ==> forall|j: int, p: Seq<char>, d: bool|
                0 <= j < items.len() && #[trigger] gives_entry(
                    items[j],
                    p,
                    d,
                    show_files,
                    before.show_hidden,
                    before.follow_symlinks,
                ) ==> exists|i: int|
                    b <= i < after.nodes@.len() && (#[trigger] after.nodes@[i]).path@ == p && after.nodes@[i].is_dir == d
                        && after.nodes@[x].children@.contains(i as usize)
        }),
{
    let k = last_path_match(before.nodes@, before.flat_list@, path)->0;
    lemma_last_path_match_valid(before.nodes@, before.flat_list@, path);
    lemma_flat_list_in_arena(&before);
    lemma_flat_list_in_arena(&after);
    let x = before.flat_list@[k] as int;
    let read = read_used(before.nodes@, x, reads);
    let items = read_items(read);
    let b = before.nodes@.len();
    let n1 = before.nodes@;
    let n2 = after.nodes@;
    let made = n2.skip(b as int);
    assert(toggled_at(n1, n2, x, read, show_files, before.show_hidden, before.follow_symlinks));
    if n1[x].is_dir && needs_load(n1[x]) {
        assert(loaded_children(n2[x], made, read, show_files, before.show_hidden, before.follow_symlinks, b as int));
        lemma_loaded_children_from_read(n2[x], made, read, show_files, before.show_hidden, before.follow_symlinks, b as int);
        assert forall|i: int| b <= i < n2.len() implies #[trigger] from_read(
            items,
            n2[i].path@,
            n2[i].is_dir,
            show_files,
            before.show_hidden,
            before.follow_symlinks,
        ) by {
            assert(made[i - b] == n2[i]);
        }
        assert forall|i: int, j: int|
            b <= i < j < n2.len() implies !(!(#[trigger] n2[i]).is_dir && (#[trigger] n2[j]).is_dir) && (n2[i].is_dir
                == n2[j].is_dir ==> !seq_lt(n2[j].name@, n2[i].name@)) by {
            assert(made[i - b] == n2[i]);
            assert(made[j - b] == n2[j]);
        }
        assert forall|i: int| b <= i < n2.len() implies (!before.show_hidden ==> !dotted(#[trigger] n2[i].name@)) && (
        !show_files ==> n2[i].is_dir) && n2[i].depth == n1[x].depth + 1 by {
            assert(made[i - b] == n2[i]);
            assert(is_fresh_node(made[i - b], made[i - b].path@, made[i - b].is_dir, n2[x].depth + 1));
        }
        if will_load(n1[x]) {
            if n2[x].is_expanded {
                assert forall|q: int| 0 <= q < n2[x].children@.len() implies x < #[trigger] n2[x].children@[q] < n2.len()
                    && !n2[n2[x].children@[q] as int].is_expanded by {
                    assert(n2[x].children@[q] == b + q);
                    assert(made[q] == n2[b + q]);
                    assert(is_fresh_node(made[q], made[q].path@, made[q].is_dir, n2[x].depth + 1));
                }
                lemma_closed_children_shown(n2, x, n2[x].children@);
            }
            assert forall|j: int, p: Seq<char>, d: bool|
                0 <= j < items.len() && #[trigger] gives_entry(
                    items[j],
                    p,
                    d,
                    show_files,
                    before.show_hidden,
                    before.follow_symlinks,
                ) implies exists|i: int|
                b <= i < n2.len() && (#[trigger] n2[i]).path@ == p && n2[i].is_dir == d && n2[x].children@.contains(
                    i as usize,
                ) by {
                let q = choose|q: int| 0 <= q < made.len() && (#[trigger] made[q]).path@ == p && made[q].is_dir == d;
                assert(made[q] == n2[b + q]);
                assert(n2[x].children@[q] == b + q);
            }
        }
    } else {
        assert(made.len() == 0);
        assert(n2.len() == b);
    }
}

/// Going to the parent directory opens a tree whose root is the parent and
/// whose entries are exactly those of the parent's read that the
/// navigation's options let through: every node below the root is such an
/// entry (with its path and kind), one level down, so with hidden entries
/// off no name starts with a dot and with files off all are directories;
/// when the parent was read as a directory every such entry is a child of
/// the root; and when the old root is shown, the selection is on it.
pub proof fn lemma_go_to_parent_lists_read(
    before: Navigation,
    after: Navigation,
    show_files: bool,
    reads: Seq<DirListing>,
    r: NavStep<()>,
)
    requires
        go_to_parent_outcome(before, after, show_files, reads, r),
        r is Done,
        path_parent(before.nodes@[0].path@) is Some,
    ensures
        ({
            let pp = path_parent(before.nodes@[0].path@)->0;
            let listing = reads[read_for(reads, pp)->0];
            let items = read_items(listing.read);
            &&& after.nodes@[0].path@ == pp
            &&& after.nodes@[0].depth == 0
            &&& after.nodes@[0].is_expanded
            &&& forall|i: int|
                1 <= i < after.nodes@.len() ==> #[trigger] from_read(
                    items,
                    after.nodes@[i].path@,
                    after.nodes@[i].is_dir,
                    show_files,
                    before.show_hidden,
                    before.follow_symlinks,
                ) && after.nodes@[i].depth == 1
            &&& !before.show_hidden ==> forall|i: int| 1 <= i < after.nodes@.len() ==> !dotted(#[trigger] after.nodes@[i].name@)
            &&& !show_files ==> forall|i: int| 1 <= i < after.nodes@.len() ==> (#[trigger] after.nodes@[i]).is_dir
            &&& forall|i: int, j: int|
                1 <= i < j < after.nodes@.len() ==> !(!(#[trigger] after.nodes@[i]).is_dir && (
                #[trigger] after.nodes@[j]).is_dir) && (after.nodes@[i].is_dir == after.nodes@[j].is_dir ==> !seq_lt(
                    after.nodes@[j].name@,
                    after.nodes@[i].name@,
                ))
            &&& listing.is_dir ==> forall|j: int, p: Seq<char>, d: bool|
                0 <= j < items.len() && #[trigger] gives_entry(
                    items[j],
                    p,
                    d,
                    show_files,
                    before.show_hidden,
                    before.follow_symlinks,
                ) ==> exists|i: int|
                    1 <= i < after.nodes@.len() && (#[trigger] after.nodes@[i]).path@ == p && after.nodes@[i].is_dir == d
                        && after.nodes@[0].children@.contains(i as usize)
            &&& last_path_match(after.nodes@, after.flat_list@, before.nodes@[0].path@) is Some ==> path_eq(
                after.nodes@[after.flat_list@[after.selected as int] as int].path@,
                before.nodes@[0].path@,
            )
        }),
{
    let pp = path_parent(before.nodes@[0].path@)->0;
    let listing = reads[read_for(reads, pp)->0];
    let items = read_items(listing.read);
    let n2 = after.nodes@;
    let rest = n2.skip(1);
    if last_path_match(after.nodes@, after.flat_list@, before.nodes@[0].path@) is Some {
        lemma_last_path_match_valid(after.nodes@, after.flat_list@, before.nodes@[0].path@);
    }
    if listing.is_dir && listing.read is Entries {
        assert(loaded_children(n2[0], rest, listing.read, show_files, before.show_hidden, before.follow_symlinks, 1));
        lemma_loaded_children_from_read(n2[0], rest, listing.read, show_files, before.show_hidden, before.follow_symlinks, 1);
        assert forall|i: int| 1 <= i < n2.len() implies #[trigger] from_read(
            items,
            n2[i].path@,
            n2[i].is_dir,
            show_files,
            before.show_hidden,
            before.follow_symlinks,
        ) && n2[i].depth == 1 by {
            assert(rest[i - 1] == n2[i]);
            assert(is_fresh_node(rest[i - 1], rest[i - 1].path@, rest[i - 1].is_dir, n2[0].depth + 1));
        }
        assert forall|i: int, j: int|
            1 <= i < j < n2.len() implies !(!(#[trigger] n2[i]).is_dir && (#[trigger] n2[j]).is_dir) && (n2[i].is_dir
                == n2[j].is_dir ==> !seq_lt(n2[j].name@, n2[i].name@)) by {
            assert(rest[i - 1] == n2[i]);
            assert(rest[j - 1] == n2[j]);
        }
        assert forall|i: int| 1 <= i < n2.len() implies (!before.show_hidden ==> !dotted(#[trigger] n2[i].name@)) && (
        !show_files ==> n2[i].is_dir) by {
            assert(rest[i - 1] == n2[i]);
        }
        assert forall|j: int, p: Seq<char>, d: bool|
            0 <= j < items.len() && #[trigger] gives_entry(
                items[j],
                p,
                d,
                show_files,
                before.show_hidden,
                before.follow_symlinks,
            ) implies exists|i: int|
            1 <= i < n2.len() && (#[trigger] n2[i]).path@ == p && n2[i].is_dir == d && n2[0].children@.contains(
                i as usize,
            ) by {
            let q = choose|q: int| 0 <= q < rest.len() && (#[trigger] rest[q]).path@ == p && rest[q].is_dir == d;
            assert(rest[q] == n2[1 + q]);
            assert(n2[0].children@[q] == 1 + q);
        }
    } else {
        assert(rest.len() == 0);
        assert(n2.len() == 1);
        if listing.is_dir {
            assert(items.len() == 0);
        }
    }
}

/// The nodes after the root, loaded as the root's children from `read`,
/// are the entries of the read that the options let through, one level
/// down and in display order; with a read that could be made, every such
/// entry is a child of the root.
proof fn lemma_root_children_from_read(
    nodes: Seq<TreeNode>,
    read: DirRead,
    show_files: bool,
    show_hidden: bool,
    follow_symlinks: bool,
)
    requires
        nodes.len() >= 1,
        loaded_children(nodes[0], nodes.skip(1), read, show_files, show_hidden, follow_symlinks, 1),
    ensures
        forall|i: int|
            1 <= i < nodes.len() ==> #[trigger] from_read(
                read_items(read),
                nodes[i].path@,
                nodes[i].is_dir,
                show_files,
                show_hidden,
                follow_symlinks,
            ) && nodes[i].depth == nodes[0].depth + 1,
        !show_hidden ==> forall|i: int| 1 <= i < nodes.len() ==> !dotted(#[trigger] nodes[i].name@),
        !show_files ==> forall|i: int| 1 <= i < nodes.len() ==> (#[trigger] nodes[i]).is_dir,
        forall|i: int, j: int|
            1 <= i < j < nodes.len() ==> !(!(#[trigger] nodes[i]).is_dir && (#[trigger] nodes[j]).is_dir) && (
            nodes[i].is_dir == nodes[j].is_dir ==> !seq_lt(nodes[j].name@, nodes[i].name@)),
        forall|j: int, p: Seq<char>, d: bool|
            0 <= j < read_items(read).len() && #[trigger] gives_entry(
                read_items(read)[j],
                p,
                d,
                show_files,
                show_hidden,
                follow_symlinks,
            ) ==> exists|i: int|
                1 <= i < nodes.len() && (#[trigger] nodes[i]).path@ == p && nodes[i].is_dir == d
                    && nodes[0].children@.contains(i as usize),
{
    let rest = nodes.skip(1);
    lemma_loaded_children_from_read(nodes[0], rest, read, show_files, show_hidden, follow_symlinks, 1);
    assert forall|i: int| 1 <= i < nodes.len() implies #[trigger] from_read(
        read_items(read),
        nodes[i].path@,
        nodes[i].is_dir,
        show_files,
        show_hidden,
        follow_symlinks,
    ) && nodes[i].depth == nodes[0].depth + 1 by {
        assert(rest[i - 1] == nodes[i]);
        if read is Entries {
            assert(is_fresh_node(rest[i - 1], rest[i - 1].path@, rest[i - 1].is_dir, nodes[0].depth + 1));
        }
    }
    if !show_hidden {
        assert forall|i: int| 1 <= i < nodes.len() implies !dotted(#[trigger] nodes[i].name@) by {
            assert(rest[i - 1] == nodes[i]);
        }
    }
    if !show_files {
        assert forall|i: int| 1 <= i < nodes.len() implies (#[trigger] nodes[i]).is_dir by {
            assert(rest[i - 1] == nodes[i]);
        }
    }
    assert forall|i: int, j: int|
        1 <= i < j < nodes.len() implies !(!(#[trigger] nodes[i]).is_dir && (#[trigger] nodes[j]).is_dir) && (
        nodes[i].is_dir == nodes[j].is_dir ==> !seq_lt(nodes[j].name@, nodes[i].name@)) by {
        assert(rest[i - 1] == nodes[i]);
        assert(rest[j - 1] == nodes[j]);
    }
    assert forall|j: int, p: Seq<char>, d: bool|
        0 <= j < read_items(read).len() && #[trigger] gives_entry(
            read_items(read)[j],
            p,
            d,
            show_files,
            show_hidden,
            follow_symlinks,
        ) implies exists|i: int|
        1 <= i < nodes.len() && (#[trigger] nodes[i]).path@ == p && nodes[i].is_dir == d && nodes[0].children@.contains(
            i as usize,
        ) by {
        let q = choose|q: int| 0 <= q < rest.len() && (#[trigger] rest[q]).path@ == p && rest[q].is_dir == d;
        assert(rest[q] == nodes[1 + q]);
        assert(nodes[0].children@[q] == 1 + q);
    }
}

/// Reloading an open root directory keeps the root and replaces everything
/// below it with exactly the entries of the root's fresh read that the
/// navigation's options let through, one level down and in display order
/// (directories first, then by name): with hidden entries off no name
/// starts with a dot, with files off all are directories, and every such
/// entry of the read is a child of the root.
pub proof fn lemma_reload_lists_read(
    before: Navigation,
    after: Navigation,
    show_files: bool,
    reads: Seq<DirListing>,
    r: NavStep<()>,
)
    requires
        before.wf(),
        reload_outcome(before, after, show_files, reads, r),
        r is Done,
        before.nodes@[0].is_expanded && before.nodes@[0].is_dir,
    ensures
        ({
            let items = read_items(reads[read_for(reads, before.nodes@[0].path@)->0].read);
            &&& after.nodes@[0].path == before.nodes@[0].path
            &&& after.nodes@[0].is_expanded
            &&& forall|i: int|
                1 <= i < after.nodes@.len() ==> #[trigger] from_read(
                    items,
                    after.nodes@[i].path@,
                    after.nodes@[i].is_dir,
                    show_files,
                    after.show_hidden,
                    after.follow_symlinks,
                ) && after.nodes@[i].depth == 1
            &&& !after.show_hidden ==> forall|i: int| 1 <= i < after.nodes@.len() ==> !dotted(#[trigger] after.nodes@[i].name@)
            &&& !show_files ==> forall|i: int| 1 <= i < after.nodes@.len() ==> (#[trigger] after.nodes@[i]).is_dir
            &&& forall|i: int, j: int|
                1 <= i < j < after.nodes@.len() ==> !(!(#[trigger] after.nodes@[i]).is_dir && (
                #[trigger] after.nodes@[j]).is_dir) && (after.nodes@[i].is_dir == after.nodes@[j].is_dir ==> !seq_lt(
                    after.nodes@[j].name@,
                    after.nodes@[i].name@,
                ))
            &&& forall|j: int, p: Seq<char>, d: bool|
                0 <= j < items.len() && #[trigger] gives_entry(
                    items[j],
                    p,
                    d,
                    show_files,
                    after.show_hidden,
                    after.follow_symlinks,
                ) ==> exists|i: int|
                    1 <= i < after.nodes@.len() && (#[trigger] after.nodes@[i]).path@ == p && after.nodes@[i].is_dir == d
                        && after.nodes@[0].children@.contains(i as usize)
        }),
{
    let read = reads[read_for(reads, before.nodes@[0].path@)->0].read;
    let n2 = after.nodes@;
    assert(n2.len() >= 1) by {
        lemma_flat_list_in_arena(&after);
    }
    if read is Entries {
        assert(loaded_children(n2[0], n2.skip(1), read, show_files, before.show_hidden, before.follow_symlinks, 1));
    } else {
        assert(n2.skip(1).len() == 0);
        assert(loaded_children(n2[0], n2.skip(1), read, show_files, before.show_hidden, before.follow_symlinks, 1));
    }
    lemma_root_children_from_read(n2, read, show_files, before.show_hidden, before.follow_symlinks);
    assert(before.nodes@[0].depth == 0) by {
        assert(before.arena_ok());
    }
    assert(n2[0].path == before.nodes@[0].path);
    assert(n2[0].is_expanded);
    assert(forall|i: int|
        1 <= i < n2.len() ==> #[trigger] from_read(
            read_items(read),
            n2[i].path@,
            n2[i].is_dir,
            show_files,
            after.show_hidden,
            after.follow_symlinks,
        ) && n2[i].depth == 1);
}

/// Opening the tree at a path gives a root with that path, expanded, the
/// selection on it, and below it exactly the entries of the path's read
/// that the navigation's options let through, one level down and in
/// display order: with hidden entries off no name starts with a dot, with
/// files off all are directories, and when the path was read as a
/// directory every such entry is a child of the root.
pub proof fn lemma_opened_lists_read(
    nav: Navigation,
    start_path: Seq<char>,
    show_files: bool,
    show_hidden: bool,
    follow_symlinks: bool,
    reads: Seq<DirListing>,
)
    requires
        opened_at(nav, start_path, show_files, show_hidden, follow_symlinks, reads),
    ensures
        ({
            let listing = reads[read_for(reads, start_path)->0];
            let items = read_items(listing.read);
            &&& nav.nodes@[0].path@ == start_path
            &&& nav.nodes@[0].is_expanded
            &&& nav.selected == 0
            &&& nav.flat_list@[0] == 0
            &&& forall|i: int|
                1 <= i < nav.nodes@.len() ==> #[trigger] from_read(
                    items,
                    nav.nodes@[i].path@,
                    nav.nodes@[i].is_dir,
                    show_files,
                    nav.show_hidden,
                    nav.follow_symlinks,
                ) && nav.nodes@[i].depth == 1
            &&& !nav.show_hidden ==> forall|i: int| 1 <= i < nav.nodes@.len() ==> !dotted(#[trigger] nav.nodes@[i].name@)
            &&& !show_files ==> forall|i: int| 1 <= i < nav.nodes@.len() ==> (#[trigger] nav.nodes@[i]).is_dir
            &&& forall|i: int, j: int|
                1 <= i < j < nav.nodes@.len() ==> !(!(#[trigger] nav.nodes@[i]).is_dir && (
                #[trigger] nav.nodes@[j]).is_dir) && (nav.nodes@[i].is_dir == nav.nodes@[j].is_dir ==> !seq_lt(
                    nav.nodes@[j].name@,
                    nav.nodes@[i].name@,
                ))
            &&& listing.is_dir ==> forall|j: int, p: Seq<char>, d: bool|
                0 <= j < items.len() && #[trigger] gives_entry(
                    items[j],
                    p,
                    d,
                    show_files,
                    nav.show_hidden,
                    nav.follow_symlinks,
                ) ==> exists|i: int|
                    1 <= i < nav.nodes@.len() && (#[trigger] nav.nodes@[i]).path@ == p && nav.nodes@[i].is_dir == d
                        && nav.nodes@[0].children@.contains(i as usize)
        }),
{
    let listing = reads[read_for(reads, start_path)->0];
    let n = nav.nodes@;
    lemma_flat_list_in_arena(&nav);
    if listing.is_dir && listing.read is Entries {
        lemma_root_children_from_read(n, listing.read, show_files, show_hidden, follow_symlinks);
        assert(n[0].depth == 0);
        assert forall|i: int| 1 <= i < n.len() implies #[trigger] from_read(
            read_items(listing.read),
            n[i].path@,
            n[i].is_dir,
            show_files,
            nav.show_hidden,
            nav.follow_symlinks,
        ) && n[i].depth == 1 by {
            assert(from_read(read_items(listing.read), n[i].path@, n[i].is_dir, show_files, show_hidden, follow_symlinks));
        }
        assert(!nav.show_hidden ==> forall|i: int| 1 <= i < n.len() ==> !dotted(#[trigger] n[i].name@));
        assert(!show_files ==> forall|i: int| 1 <= i < n.len() ==> (#[trigger] n[i]).is_dir);
    } else {
        assert(n.skip(1).len() == 0);
        assert(n.len() == 1);
        if listing.is_dir {
            assert(read_items(listing.read).len() == 0);
        }
    }
    assert(nav.nodes@[0].path@ == start_path);
    assert(nav.nodes@[0].is_expanded);
    assert(nav.selected == 0);
    assert(nav.flat_list@[0] == 0);
}

/// Expanding the way to a path touches only directories on the way: a
/// node that changed keeps its path, name, kind and depth, is now
/// expanded, and its path is a proper prefix of the target (so a node whose
/// path is not on the way is left as it was).  When the search succeeds
/// and a shown entry has the target's path, the selection is on such an
/// entry; when it stops at a directory it had to load, the selection is
/// unchanged.
pub proof fn lemma_expand_path_effects(
    before: Navigation,
    after: Navigation,
    target: Seq<char>,
    show_files: bool,
    reads: Seq<DirListing>,
    r: NavStep<()>,
)
    requires
        expand_outcome(before, after, target, show_files, reads, r),
    ensures
        forall|j: int|
            0 <= j < before.nodes@.len() && #[trigger] after.nodes@[j] != before.nodes@[j] ==> {
                &&& after.nodes@[j].is_expanded
                &&& after.nodes@[j].path == before.nodes@[j].path
                &&& after.nodes@[j].name == before.nodes@[j].name
                &&& after.nodes@[j].is_dir == before.nodes@[j].is_dir
                &&& after.nodes@[j].depth == before.nodes@[j].depth
                &&& path_starts_with(target, before.nodes@[j].path@)
                &&& !path_eq(before.nodes@[j].path@, target)
            },
        r is Done && last_path_match(after.nodes@, after.flat_list@, target) is Some ==> 0 <= after.selected
            < after.flat_list@.len() && path_eq(after.nodes@[after.flat_list@[after.selected as int] as int].path@, target),
        !(r is Done) ==> after.selected == before.selected,
        after.show_hidden == before.show_hidden && after.follow_symlinks == before.follow_symlinks,
{
    if r is Done && last_path_match(after.nodes@, after.flat_list@, target) is Some {
        lemma_last_path_match_valid(after.nodes@, after.flat_list@, target);
    }
}

} // verus!
