//! A node of the file tree, and the loading of a directory's children from
//! what reading the directory gave.
use vstd::prelude::*;
use crate::paths::{file_name, opt_text, path_file_name};
use crate::text::{
    decimal, decimal_string, lemma_seq_lt_asymmetric, lemma_seq_lt_irreflexive, lemma_seq_lt_total,
    lemma_seq_lt_transitive, seq_lt, str_lt,
};
use vstd::string::*;

verus! {

/// One entry of the file tree.  Children are held by their index in the
/// arena of nodes that owns the tree (see `Navigation`).
pub struct TreeNode {
    pub path: String,
    pub name: String,
    pub is_dir: bool,
    pub is_expanded: bool,
    pub depth: usize,
    pub children: Vec<usize>,
    pub has_error: bool,
    pub error_message: Option<String>,
    /// Set once the children were loaded and put in display order.
    pub is_sorted: bool,
}

/// What reading a directory gave for one of its entries.
pub struct DirEntryInfo {
    /// The entry's full path (the directory's path joined with its name).
    pub path: String,
    /// Whether the path is a directory (following symbolic links).
    pub is_dir: bool,
    /// Whether the entry itself is a symbolic link (false when its metadata
    /// could not be read).
    pub is_symlink: bool,
}

/// One item of a directory read: an entry, or the error text of an entry
/// that could not be read.
pub enum DirEntryRead {
    Entry(DirEntryInfo),
    Failed(String),
}

/// The result of reading a directory: its entries in the order the system
/// gave them, or the error text when the directory could not be opened.
pub enum DirRead {
    Entries(Vec<DirEntryRead>),
    Failed(String),
}

/// The name shown for a path: its final component, or empty.
pub open spec fn name_of(path: Seq<char>) -> Seq<char> {
    match path_file_name(path) {
        Some(n) => n,
        None => seq![],
    }
}

/// A node as `TreeNode::new` makes it: collapsed, without children or error.
pub open spec fn is_fresh_node(n: TreeNode, path: Seq<char>, is_dir: bool, depth: int) -> bool {
    &&& n.path@ == path
    &&& n.name@ == name_of(path)
    &&& n.is_dir == is_dir
    &&& !n.is_expanded
    &&& n.depth == depth
    &&& n.children@.len() == 0
    &&& !n.has_error
    &&& n.error_message is None
    &&& !n.is_sorted
}

/// Names that start with a dot are hidden.
pub open spec fn is_hidden_name(name: Option<Seq<char>>) -> bool {
    match name {
        Some(n) => n.len() > 0 && n[0] == '.',
        None => false,
    }
}

/// Whether a directory entry is listed under the given display options.
pub open spec fn entry_shown(
    e: DirEntryInfo,
    show_files: bool,
    show_hidden: bool,
    follow_symlinks: bool,
) -> bool {
    &&& follow_symlinks || !e.is_symlink
    &&& show_hidden || !is_hidden_name(path_file_name(e.path@))
    &&& e.is_dir || show_files
}

/// The sort key of an entry: its path and whether it is a directory.
pub type EntryKey = (Seq<char>, bool);

/// The (path, is_dir) of the entries of a read that are listed, in read order.
pub open spec fn shown_keys(
    es: Seq<DirEntryRead>,
    show_files: bool,
    show_hidden: bool,
    follow_symlinks: bool,
) -> Seq<EntryKey>
    decreases es.len(),
{
    if es.len() == 0 {
        seq![]
    } else {
        let rest = shown_keys(es.drop_last(), show_files, show_hidden, follow_symlinks);
        match es.last() {
            DirEntryRead::Entry(e) => if entry_shown(e, show_files, show_hidden, follow_symlinks) {
                rest.push((e.path@, e.is_dir))
            } else {
                rest
            },
            DirEntryRead::Failed(_) => rest,
        }
    }
}

/// The error texts of the entries that could not be read, in read order.
pub open spec fn failed_texts(es: Seq<DirEntryRead>) -> Seq<Seq<char>>
    decreases es.len(),
{
    if es.len() == 0 {
        seq![]
    } else {
        let rest = failed_texts(es.drop_last());
        match es.last() {
            DirEntryRead::Entry(_) => rest,
            DirEntryRead::Failed(t) => rest.push(t@),
        }
    }
}

/// Display order of entries: directories before files, then by name.
pub open spec fn key_before(a: EntryKey, b: EntryKey) -> bool {
    ||| (a.1 && !b.1)
    ||| (a.1 == b.1 && seq_lt(name_of(a.0), name_of(b.0)))
}

/// Inserts `x` into `s` after every element that does not sort after it.
pub open spec fn insert_key(s: Seq<EntryKey>, x: EntryKey) -> Seq<EntryKey>
    decreases s.len(),
{
    if s.len() > 0 && key_before(x, s.last()) {
        insert_key(s.drop_last(), x).push(s.last())
    } else {
        s.push(x)
    }
}

/// The stable sort of `s` into display order.
pub open spec fn sort_keys(s: Seq<EntryKey>) -> Seq<EntryKey>
    decreases s.len(),
{
    if s.len() == 0 {
        s
    } else {
        insert_key(sort_keys(s.drop_last()), s.last())
    }
}

/// The keys of the children that a read of a directory gives, in display order.
pub open spec fn listed_keys(
    es: Seq<DirEntryRead>,
    show_files: bool,
    show_hidden: bool,
    follow_symlinks: bool,
) -> Seq<EntryKey> {
    sort_keys(shown_keys(es, show_files, show_hidden, follow_symlinks))
}

pub open spec fn node_key(n: TreeNode) -> EntryKey {
    (n.path@, n.is_dir)
}

pub open spec fn keys_of(s: Seq<TreeNode>) -> Seq<EntryKey> {
    s.map_values(|n: TreeNode| node_key(n))
}

/// `"Cannot read: {e}"`.
pub open spec fn cannot_read_text(e: Seq<char>) -> Seq<char> {
    "Cannot read: "@ + e
}

/// `"unknown entry: {e}"`.
pub open spec fn unknown_entry_text(e: Seq<char>) -> Seq<char> {
    "unknown entry: "@ + e
}

/// The texts of `errs`, each prefixed as an unknown entry, joined by `", "`.
pub open spec fn joined_entry_errors(errs: Seq<Seq<char>>) -> Seq<char>
    decreases errs.len(),
{
    if errs.len() == 0 {
        seq![]
    } else if errs.len() == 1 {
        unknown_entry_text(errs[0])
    } else {
        joined_entry_errors(errs.drop_last()) + ", "@ + unknown_entry_text(errs.last())
    }
}

/// The message for entries that could not be read: each of them when there
/// are at most three, else their count.
pub open spec fn entry_errors_text(errs: Seq<Seq<char>>) -> Seq<char> {
    if errs.len() <= 3 {
        joined_entry_errors(errs)
    } else {
        decimal(errs.len()) + " entries inaccessible"@
    }
}

/// The number of items of a read.
pub open spec fn read_len(read: DirRead) -> nat {
    match read {
        DirRead::Entries(es) => es@.len(),
        DirRead::Failed(_) => 0,
    }
}

/// Whether `load_children` reads the directory for this node.
pub open spec fn needs_load(n: TreeNode) -> bool {
    n.is_dir && !(n.children@.len() > 0 && n.is_sorted)
}

/// The node after `load_children` with the given read, for the fields other
/// than the children themselves.
pub open spec fn loaded_rest(old: TreeNode, new: TreeNode, read: DirRead) -> bool {
    &&& new.path == old.path
    &&& new.name == old.name
    &&& new.is_dir == old.is_dir
    &&& new.is_expanded == old.is_expanded
    &&& new.depth == old.depth
    &&& match read {
        DirRead::Failed(e) => {
            &&& new.children@.len() == 0
            &&& new.is_sorted == (old.is_sorted && old.children@.len() == 0)
            &&& new.has_error
            &&& opt_text(new.error_message) == Some(cannot_read_text(e@))
        },
        DirRead::Entries(es) => {
            let errs = failed_texts(es@);
            &&& new.is_sorted
            &&& new.has_error == (old.has_error || errs.len() > 0)
            &&& if errs.len() > 0 {
                opt_text(new.error_message) == Some(entry_errors_text(errs))
            } else {
                new.error_message == old.error_message
            }
        },
    }
}

/// The children that a load with `read` creates, numbered from `first`.
pub open spec fn loaded_children(
    node: TreeNode,
    new_nodes: Seq<TreeNode>,
    read: DirRead,
    show_files: bool,
    show_hidden: bool,
    follow_symlinks: bool,
    first: int,
) -> bool {
    match read {
        DirRead::Failed(_) => new_nodes.len() == 0,
        DirRead::Entries(es) => {
            &&& keys_of(new_nodes) == listed_keys(es@, show_files, show_hidden, follow_symlinks)
            &&& forall|i: int|
                0 <= i < new_nodes.len() ==> is_fresh_node(
                    #[trigger] new_nodes[i],
                    new_nodes[i].path@,
                    new_nodes[i].is_dir,
                    node.depth + 1,
                )
            &&& node.children@.len() == new_nodes.len()
            &&& forall|i: int|
                0 <= i < new_nodes.len() ==> #[trigger] node.children@[i] == first + i
        },
    }
}

/// Whether `a` comes strictly before `b` in display order.
fn node_before(a: &TreeNode, b: &TreeNode) -> (r: bool)
    requires
        a.name@ == name_of(a.path@),
        b.name@ == name_of(b.path@),
    ensures
        r == key_before(node_key(*a), node_key(*b)),
{
    if a.is_dir && !b.is_dir {
        true
    } else if a.is_dir == b.is_dir {
        str_lt(a.name.as_str(), b.name.as_str())
    } else {
        false
    }
}

/// Sorts nodes into display order, keeping the read order of equal keys.
fn sort_nodes(v: Vec<TreeNode>) -> (r: Vec<TreeNode>)
    requires
        forall|i: int| 0 <= i < v@.len() ==> (#[trigger] v@[i]).name@ == name_of(v@[i].path@),
    ensures
        keys_of(r@) == sort_keys(keys_of(v@)),
        forall|i: int| 0 <= i < r@.len() ==> v@.contains(#[trigger] r@[i]),
{
    let ghost v0 = v@;
    assert(v0.len() == v.len());
    let mut out: Vec<TreeNode> = Vec::new();
    let mut rest = v;
    let mut taken: usize = 0;
    // `rest` is consumed from the front by reversing it once.
    let mut rev: Vec<TreeNode> = Vec::new();
    while rest.len() > 0
        invariant
            rev@.len() + rest@.len() == v0.len(),
            v0.len() <= usize::MAX,
            forall|k: int| 0 <= k < rest@.len() ==> rest@[k] == v0[k],
            forall|k: int| 0 <= k < rev@.len() ==> rev@[k] == v0[v0.len() - 1 - k],
        decreases rest.len(),
    {
        let x = rest.pop().unwrap();
        rev.push(x);
    }
    while rev.len() > 0
        invariant
            taken + rev@.len() == v0.len(),
            v0.len() <= usize::MAX,
            forall|k: int| 0 <= k < rev@.len() ==> rev@[k] == v0[v0.len() - 1 - k],
            keys_of(out@) == sort_keys(keys_of(v0.take(taken as int))),
            forall|i: int| 0 <= i < out@.len() ==> v0.contains(#[trigger] out@[i]),
            forall|i: int| 0 <= i < v0.len() ==> (#[trigger] v0[i]).name@ == name_of(v0[i].path@),
        decreases rev.len(),
    {
        let x = rev.pop().unwrap();
        assert(x == v0[taken as int]);
        assert(v0.contains(x));
        let ghost ks = keys_of(out@);
        let mut pos = out.len();
        assert(ks.take(pos as int) =~= ks);
        assert(ks.skip(pos as int) =~= Seq::<EntryKey>::empty());
        while pos > 0 && node_before(&x, &out[pos - 1])
            invariant
                pos <= out@.len(),
                x.name@ == name_of(x.path@),
                forall|i: int| 0 <= i < out@.len() ==> v0.contains(#[trigger] out@[i]),
                forall|i: int| 0 <= i < v0.len() ==> (#[trigger] v0[i]).name@ == name_of(v0[i].path@),
                ks == keys_of(out@),
                insert_key(ks, node_key(x)) == insert_key(ks.take(pos as int), node_key(x)) + ks.skip(pos as int),
            decreases pos,
        {
            let ghost p = pos as int;
            assert(ks.take(p).drop_last() =~= ks.take(p - 1));
            assert(ks.take(p).last() == ks[p - 1]);
            assert(ks.skip(p - 1) =~= seq![ks[p - 1]] + ks.skip(p));
            assert(insert_key(ks.take(p - 1), node_key(x)).push(ks[p - 1]) + ks.skip(p)
                =~= insert_key(ks.take(p - 1), node_key(x)) + ks.skip(p - 1));
            pos = pos - 1;
        }
        proof {
            let p = pos as int;
            if p > 0 {
                assert(ks.take(p).last() == ks[p - 1]);
            }
            assert(insert_key(ks.take(p), node_key(x)) == ks.take(p).push(node_key(x)));
            assert(v0.take(taken + 1).drop_last() =~= v0.take(taken as int));
            assert(keys_of(v0.take(taken + 1)).drop_last() =~= keys_of(v0.take(taken as int)));
            assert(keys_of(v0.take(taken + 1)).last() == node_key(x));
        }
        let ghost before = out@;
        out.insert(pos, x);
        proof {
            let p = pos as int;
            assert(keys_of(out@) =~= ks.take(p).push(node_key(x)) + ks.skip(p));
            assert forall|i: int| 0 <= i < out@.len() implies v0.contains(#[trigger] out@[i]) by {
                if i < p {
                } else if i == p {
                } else {
                    assert(out@[i] == before[i - 1]);
                }
            }
        }
        taken = taken + 1;
    }
    assert(v0.take(v0.len() as int) =~= v0);
    out
}

/// `"Cannot read: {e}"`.
fn cannot_read_message(e: &String) -> (s: String)
    ensures
        s@ == cannot_read_text(e@),
{
    let mut s = String::from_str("Cannot read: ");
    s.append(e.as_str());
    s
}

/// The message for the entries of a directory that could not be read.
fn entry_errors_message(errs: &Vec<String>) -> (s: String)
    requires
        errs@.len() > 0,
    ensures
        s@ == entry_errors_text(errs@.map_values(|e: String| e@)),
{
    let ghost texts = errs@.map_values(|e: String| e@);
    if errs.len() <= 3 {
        let mut s = String::new();
        let mut i: usize = 0;
        while i < errs.len()
            invariant
                i <= errs@.len(),
                texts == errs@.map_values(|e: String| e@),
                s@ == joined_entry_errors(texts.take(i as int)),
            decreases errs.len() - i,
        {
            assert(texts.take(i + 1).drop_last() =~= texts.take(i as int));
            assert(texts.take(i + 1).last() == errs@[i as int]@);
            if i > 0 {
                s.append(", ");
            } else {
                assert(texts.take(1)[0] == errs@[0]@);
            }
            s.append("unknown entry: ");
            s.append(errs[i].as_str());
            i = i + 1;
        }
        assert(texts.take(errs@.len() as int) =~= texts);
        s
    } else {
        let mut s = decimal_string(errs.len());
        s.append(" entries inaccessible");
        s
    }
}

/// Whether an entry is listed under the display options.
fn entry_is_shown(e: &DirEntryInfo, show_files: bool, show_hidden: bool, follow_symlinks: bool) -> (r: bool)
    ensures
        r == entry_shown(*e, show_files, show_hidden, follow_symlinks),
{
    if !follow_symlinks && e.is_symlink {
        return false;
    }
    if !show_hidden {
        match file_name(e.path.as_str()) {
            Some(n) => {
                if n.as_str().unicode_len() > 0 && n.as_str().get_char(0) == '.' {
                    return false;
                }
            },
            None => {},
        }
    }
    e.is_dir || show_files
}

impl TreeNode {
    /// A collapsed node for `path`, without children, at the given depth.
    /// Whether the path is a directory is read by the caller.
    pub fn new(path: String, is_dir: bool, depth: usize) -> (r: TreeNode)
        ensures
            is_fresh_node(r, path@, is_dir, depth as int),
    {
        let name = match file_name(path.as_str()) {
            Some(n) => n,
            None => String::new(),
        };
        TreeNode {
            path,
            name,
            is_dir,
            is_expanded: false,
            depth,
            children: Vec::new(),
            has_error: false,
            error_message: None,
            is_sorted: false,
        }
    }
}

impl TreeNode {
    /// Loads the children of a directory node from a read of its directory.
    ///
    /// Nothing happens for a file or for a directory whose children were
    /// already loaded and sorted.  Otherwise earlier children are dropped,
    /// the listed entries become new nodes one level deeper, in display
    /// order, numbered from `first`; the new nodes are returned for the
    /// caller to place at those indices.  A failed read, or entries that
    /// could not be read, set the error flag and message.
    pub fn load_children(
        &mut self,
        read: &DirRead,
        show_files: bool,
        show_hidden: bool,
        follow_symlinks: bool,
        first: usize,
    ) -> (new_nodes: Vec<TreeNode>)
        requires
            old(self).depth < usize::MAX,
            first + read_len(*read) <= usize::MAX,
        ensures
            !needs_load(*old(self)) ==> *final(self) == *old(self) && new_nodes@.len() == 0,
            new_nodes@.len() <= read_len(*read),
            needs_load(*old(self)) ==> loaded_rest(*old(self), *final(self), *read),
            needs_load(*old(self)) ==> loaded_children(
                *final(self),
                new_nodes@,
                *read,
                show_files,
                show_hidden,
                follow_symlinks,
                first as int,
            ),
    {
        if !self.is_dir || (self.children.len() > 0 && self.is_sorted) {
            return Vec::new();
        }
        if self.children.len() > 0 {
            self.children.clear();
            self.is_sorted = false;
        }
        match read {
            DirRead::Failed(e) => {
                self.has_error = true;
                self.error_message = Some(cannot_read_message(e));
                Vec::new()
            },
            DirRead::Entries(es) => {
                let ghost items = es@;
                let child_depth = self.depth + 1;
                let mut created: Vec<TreeNode> = Vec::new();
                let mut errors: Vec<String> = Vec::new();
                let mut i: usize = 0;
                while i < es.len()
                    invariant
                        items == es@,
                        i <= items.len(),
                        created@.len() <= i,
                        keys_of(created@) == shown_keys(
                            items.take(i as int),
                            show_files,
                            show_hidden,
                            follow_symlinks,
                        ),
                        errors@.map_values(|e: String| e@) == failed_texts(items.take(i as int)),
                        forall|k: int|
                            0 <= k < created@.len() ==> is_fresh_node(
                                #[trigger] created@[k],
                                created@[k].path@,
                                created@[k].is_dir,
                                child_depth as int,
                            ),
                    decreases items.len() - i,
                {
                    assert(items.take(i + 1).drop_last() =~= items.take(i as int));
                    assert(items.take(i + 1).last() == items[i as int]);
                    match &es[i] {
                        DirEntryRead::Entry(info) => {
                            if entry_is_shown(info, show_files, show_hidden, follow_symlinks) {
                                let node = TreeNode::new(info.path.clone(), info.is_dir, child_depth);
                                let ghost before = created@;
                                created.push(node);
                                assert(keys_of(created@) =~= keys_of(before).push(node_key(node)));
                            }
                        },
                        DirEntryRead::Failed(t) => {
                            let ghost before = errors@;
                            errors.push(t.clone());
                            assert(errors@.map_values(|e: String| e@) =~= before.map_values(
                                |e: String| e@,
                            ).push(t@));
                        },
                    }
                    i = i + 1;
                }
                assert(items.take(items.len() as int) =~= items);
                if errors.len() > 0 {
                    self.has_error = true;
                    self.error_message = Some(entry_errors_message(&errors));
                }
                let sorted = sort_nodes(created);
                proof {
                    assert forall|k: int| 0 <= k < sorted@.len() implies is_fresh_node(
                        #[trigger] sorted@[k],
                        sorted@[k].path@,
                        sorted@[k].is_dir,
                        child_depth as int,
                    ) by {
                        let j = choose|j: int| 0 <= j < created@.len() && created@[j] == sorted@[k];
                    }
                    assert(keys_of(sorted@).len() == sorted@.len());
                    assert(sort_keys(keys_of(created@)).len() == created@.len()) by {
                        lemma_sort_keys_len(keys_of(created@));
                    }
                    assert(items.len() == read_len(*read));
                }
                let mut children: Vec<usize> = Vec::new();
                let mut k: usize = 0;
                while k < sorted.len()
                    invariant
                        k <= sorted@.len(),
                        sorted@.len() <= read_len(*read),
                        first + read_len(*read) <= usize::MAX,
                        children@.len() == k,
                        forall|j: int| 0 <= j < k ==> #[trigger] children@[j] == first + j,
                    decreases sorted.len() - k,
                {
                    children.push(first + k);
                    k = k + 1;
                }
                self.children = children;
                self.is_sorted = true;
                sorted
            },
        }
    }

    /// Collapses an expanded directory, or expands a collapsed one after
    /// loading its children; a directory whose load reports an error stays
    /// collapsed.  Files are left as they are.  Returns the children created
    /// by the load, numbered from `first`.
    pub fn toggle_expand(
        &mut self,
        read: &DirRead,
        show_files: bool,
        show_hidden: bool,
        follow_symlinks: bool,
        first: usize,
    ) -> (new_nodes: Vec<TreeNode>)
        requires
            old(self).depth < usize::MAX,
            first + read_len(*read) <= usize::MAX,
        ensures
            toggle_result(
                *old(self),
                *final(self),
                new_nodes@,
                *read,
                show_files,
                show_hidden,
                follow_symlinks,
                first as int,
            ),
    {
        if !self.is_dir {
            return Vec::new();
        }
        if self.is_expanded {
            self.is_expanded = false;
            Vec::new()
        } else {
            let created = self.load_children(read, show_files, show_hidden, follow_symlinks, first);
            if !self.has_error {
                self.is_expanded = true;
            }
            created
        }
    }
}

/// The outcome of `toggle_expand`: files are left as they are, an expanded
/// directory is collapsed, a collapsed one is opened.
pub open spec fn toggle_result(
    old: TreeNode,
    new: TreeNode,
    new_nodes: Seq<TreeNode>,
    read: DirRead,
    show_files: bool,
    show_hidden: bool,
    follow_symlinks: bool,
    first: int,
) -> bool {
    if !old.is_dir {
        new == old && new_nodes.len() == 0
    } else if old.is_expanded {
        new == (TreeNode { is_expanded: false, ..old }) && new_nodes.len() == 0
    } else {
        toggled_open(old, new, new_nodes, read, show_files, show_hidden, follow_symlinks, first)
    }
}

/// The outcome of opening a collapsed directory node: it is loaded as
/// `load_children` does, then expanded unless its error flag is set.
pub open spec fn toggled_open(
    old: TreeNode,
    new: TreeNode,
    new_nodes: Seq<TreeNode>,
    read: DirRead,
    show_files: bool,
    show_hidden: bool,
    follow_symlinks: bool,
    first: int,
) -> bool {
    let loaded = TreeNode { is_expanded: false, ..new };
    &&& new.is_expanded == !new.has_error
    &&& if needs_load(old) {
        &&& loaded_rest(old, loaded, read)
        &&& loaded_children(new, new_nodes, read, show_files, show_hidden, follow_symlinks, first)
    } else {
        &&& loaded == old
        &&& new_nodes.len() == 0
    }
}

/// Sorting keeps the number of keys.
pub proof fn lemma_sort_keys_len(s: Seq<EntryKey>)
    ensures
        sort_keys(s).len() == s.len(),
    decreases s.len(),
{
    if s.len() > 0 {
        lemma_sort_keys_len(s.drop_last());
        lemma_insert_key_len(sort_keys(s.drop_last()), s.last());
    }
}

/// Inserting adds one key.
pub proof fn lemma_insert_key_len(s: Seq<EntryKey>, x: EntryKey)
    ensures
        insert_key(s, x).len() == s.len() + 1,
    decreases s.len(),
{
    if s.len() > 0 && key_before(x, s.last()) {
        lemma_insert_key_len(s.drop_last(), x);
    }
}

/// Keys in display order: no key comes before an earlier one.
pub open spec fn keys_in_order(s: Seq<EntryKey>) -> bool {
    forall|i: int, j: int| 0 <= i < j < s.len() ==> !key_before(#[trigger] s[j], #[trigger] s[i])
}

/// Display order is a strict weak order: if `a` comes before `c`, any `b`
/// comes after `a` or before `c`.
pub proof fn lemma_key_before_split(a: EntryKey, b: EntryKey, c: EntryKey)
    requires
        key_before(a, c),
    ensures
        key_before(a, b) || key_before(b, c),
{
    let (na, nb, nc) = (name_of(a.0), name_of(b.0), name_of(c.0));
    if a.1 == b.1 && b.1 == c.1 {
        if !seq_lt(na, nb) && !seq_lt(nb, nc) {
            if na != nb {
                lemma_seq_lt_total(na, nb);
            }
            if nb != nc {
                lemma_seq_lt_total(nb, nc);
            }
            if nb != na && nc != nb {
                lemma_seq_lt_transitive(nc, nb, na);
                lemma_seq_lt_asymmetric(nc, na);
            } else if nb == na && nc != nb {
                lemma_seq_lt_asymmetric(nc, na);
            } else if nb != na && nc == nb {
                lemma_seq_lt_asymmetric(nc, na);
            } else {
                lemma_seq_lt_irreflexive(na);
            }
        }
    }
}

/// Display order is asymmetric.
pub proof fn lemma_key_before_asymmetric(a: EntryKey, b: EntryKey)
    requires
        key_before(a, b),
    ensures
        !key_before(b, a),
{
    if a.1 == b.1 && seq_lt(name_of(a.0), name_of(b.0)) {
        lemma_seq_lt_asymmetric(name_of(a.0), name_of(b.0));
    }
}

/// Inserting into keys in display order keeps them in order and adds
/// exactly the inserted key.
pub proof fn lemma_insert_key_in_order(s: Seq<EntryKey>, x: EntryKey)
    requires
        keys_in_order(s),
    ensures
        keys_in_order(insert_key(s, x)),
        insert_key(s, x).to_multiset() == s.to_multiset().insert(x),
    decreases s.len(),
{
    broadcast use vstd::seq_lib::group_to_multiset_ensures;
    if s.len() > 0 && key_before(x, s.last()) {
        let init = s.drop_last();
        let last = s.last();
        assert(keys_in_order(init)) by {
            assert forall|i: int, j: int| 0 <= i < j < init.len() implies !key_before(#[trigger] init[j], #[trigger] init[i]) by {
                assert(init[i] == s[i] && init[j] == s[j]);
            }
        }
        lemma_insert_key_in_order(init, x);
        let r0 = insert_key(init, x);
        let r = r0.push(last);
        assert forall|i: int, j: int| 0 <= i < j < r.len() implies !key_before(#[trigger] r[j], #[trigger] r[i]) by {
            if j == r.len() - 1 {
                let e = r0[i];
                assert(r0.to_multiset().count(e) > 0);
                assert(init.to_multiset().insert(x).count(e) > 0);
                if e == x {
                    lemma_key_before_asymmetric(x, last);
                } else {
                    assert(init.to_multiset().count(e) > 0);
                    assert(init.contains(e));
                    let k = choose|k: int| 0 <= k < init.len() && init[k] == e;
                    assert(s[k] == e);
                    assert(s[s.len() - 1] == last);
                }
            } else {
                assert(r[i] == r0[i] && r[j] == r0[j]);
            }
        }
        assert(s =~= init.push(last));
        assert(r.to_multiset() =~= s.to_multiset().insert(x));
    } else {
        let r = s.push(x);
        assert forall|i: int, j: int| 0 <= i < j < r.len() implies !key_before(#[trigger] r[j], #[trigger] r[i]) by {
            if j == r.len() - 1 {
                if i < s.len() - 1 && key_before(x, s[i]) {
                    lemma_key_before_split(x, s.last(), s[i]);
                    assert(s[s.len() - 1] == s.last());
                }
            } else {
                assert(r[i] == s[i] && r[j] == s[j]);
            }
        }
        assert(r.to_multiset() =~= s.to_multiset().insert(x));
    }
}

/// The children a directory read gives are in display order (directories
/// first, then by name) and are exactly the listed entries, each once.
pub proof fn lemma_sort_keys_in_order(s: Seq<EntryKey>)
    ensures
        keys_in_order(sort_keys(s)),
        sort_keys(s).to_multiset() == s.to_multiset(),
    decreases s.len(),
{
    broadcast use vstd::seq_lib::group_to_multiset_ensures;
    if s.len() == 0 {
    } else {
        lemma_sort_keys_in_order(s.drop_last());
        lemma_insert_key_in_order(sort_keys(s.drop_last()), s.last());
        assert(s =~= s.drop_last().push(s.last()));
    }
}

/// A name that starts with a dot.
pub open spec fn dotted(name: Seq<char>) -> bool {
    name.len() > 0 && name[0] == '.'
}

/// An entry of a read that the display options let through: a symbolic
/// link only when links are followed, a name starting with a dot only when
/// hidden entries are shown, a file only when files are shown.
pub open spec fn passes_options(
    e: DirEntryInfo,
    show_files: bool,
    show_hidden: bool,
    follow_symlinks: bool,
) -> bool {
    &&& follow_symlinks || !e.is_symlink
    &&& show_hidden || !(path_file_name(e.path@) matches Some(n) && dotted(n))
    &&& show_files || e.is_dir
}

/// The read item is an entry with this path and kind that the display
/// options let through.
pub open spec fn gives_entry(
    r: DirEntryRead,
    path: Seq<char>,
    is_dir: bool,
    show_files: bool,
    show_hidden: bool,
    follow_symlinks: bool,
) -> bool {
    match r {
        DirEntryRead::Entry(e) => e.path@ == path && e.is_dir == is_dir && passes_options(
            e,
            show_files,
            show_hidden,
            follow_symlinks,
        ),
        DirEntryRead::Failed(_) => false,
    }
}

/// Some item of `es` is an entry with this path and kind that the display
/// options let through.
pub open spec fn from_read(
    es: Seq<DirEntryRead>,
    path: Seq<char>,
    is_dir: bool,
    show_files: bool,
    show_hidden: bool,
    follow_symlinks: bool,
) -> bool {
    exists|j: int| 0 <= j < es.len() && #[trigger] gives_entry(es[j], path, is_dir, show_files, show_hidden, follow_symlinks)
}

proof fn lemma_shown_keys_member(es: Seq<DirEntryRead>, show_files: bool, show_hidden: bool, follow_symlinks: bool)
    ensures
        forall|i: int|
            0 <= i < shown_keys(es, show_files, show_hidden, follow_symlinks).len() ==> #[trigger] from_read(
                es,
                shown_keys(es, show_files, show_hidden, follow_symlinks)[i].0,
                shown_keys(es, show_files, show_hidden, follow_symlinks)[i].1,
                show_files,
                show_hidden,
                follow_symlinks,
            ),
        forall|j: int, p: Seq<char>, d: bool|
            0 <= j < es.len() && #[trigger] gives_entry(es[j], p, d, show_files, show_hidden, follow_symlinks)
                ==> shown_keys(es, show_files, show_hidden, follow_symlinks).contains((p, d)),
    decreases es.len(),
{
    if es.len() == 0 {
        assert(shown_keys(es, show_files, show_hidden, follow_symlinks) =~= Seq::<EntryKey>::empty());
    } else {
        let d = es.drop_last();
        lemma_shown_keys_member(d, show_files, show_hidden, follow_symlinks);
        let rest = shown_keys(d, show_files, show_hidden, follow_symlinks);
        let all = shown_keys(es, show_files, show_hidden, follow_symlinks);
        assert forall|i: int| 0 <= i < all.len() implies #[trigger] from_read(
            es,
            all[i].0,
            all[i].1,
            show_files,
            show_hidden,
            follow_symlinks,
        ) by {
            if i < rest.len() {
                assert(all[i] == rest[i]);
                assert(from_read(d, rest[i].0, rest[i].1, show_files, show_hidden, follow_symlinks));
                let j = choose|j: int|
                    0 <= j < d.len() && #[trigger] gives_entry(
                        d[j],
                        rest[i].0,
                        rest[i].1,
                        show_files,
                        show_hidden,
                        follow_symlinks,
                    );
                assert(es[j] == d[j]);
                assert(gives_entry(es[j], all[i].0, all[i].1, show_files, show_hidden, follow_symlinks));
            } else {
                let j = es.len() - 1;
                assert(es[j] == es.last());
                match es.last() {
                    DirEntryRead::Entry(e) => {
                        if entry_shown(e, show_files, show_hidden, follow_symlinks) {
                            assert(all == rest.push((e.path@, e.is_dir)));
                            assert(all[i] == (e.path@, e.is_dir));
                        } else {
                            assert(all == rest);
                        }
                    },
                    DirEntryRead::Failed(_) => {
                        assert(all == rest);
                    },
                }
                assert(gives_entry(es[j], all[i].0, all[i].1, show_files, show_hidden, follow_symlinks));
            }
        }
        assert forall|j: int, p: Seq<char>, dd: bool|
            0 <= j < es.len() && #[trigger] gives_entry(es[j], p, dd, show_files, show_hidden, follow_symlinks)
            implies all.contains((p, dd)) by {
            if j < d.len() {
                assert(d[j] == es[j]);
                assert(rest.contains((p, dd)));
                let q = choose|q: int| 0 <= q < rest.len() && rest[q] == (p, dd);
                assert(all[q] == rest[q]);
            } else {
                assert(es[j] == es.last());
                match es.last() {
                    DirEntryRead::Entry(e) => {
                        assert(entry_shown(e, show_files, show_hidden, follow_symlinks));
                        assert(all == rest.push((e.path@, e.is_dir)));
                        assert(all[all.len() - 1] == (p, dd));
                    },
                    DirEntryRead::Failed(_) => {},
                }
            }
        }
    }
}

/// The entries of a read, when it could be made.
pub open spec fn read_items(read: DirRead) -> Seq<DirEntryRead> {
    match read {
        DirRead::Entries(es) => es@,
        DirRead::Failed(_) => seq![],
    }
}

/// The children that loading a directory creates come from its read: each
/// is an entry of the read, with the entry's path and kind, that the
/// display options let through (so no symbolic link unless links are
/// followed, no name starting with a dot unless hidden entries are shown,
/// no file unless files are shown); and every such entry of the read
/// becomes a child.  A failed read creates none.
pub proof fn lemma_loaded_children_from_read(
    node: TreeNode,
    new_nodes: Seq<TreeNode>,
    read: DirRead,
    show_files: bool,
    show_hidden: bool,
    follow_symlinks: bool,
    first: int,
)
    requires
        loaded_children(node, new_nodes, read, show_files, show_hidden, follow_symlinks, first),
    ensures
        read is Failed ==> new_nodes.len() == 0,
        forall|i: int|
            0 <= i < new_nodes.len() ==> exists|j: int|
                0 <= j < read_items(read).len() && #[trigger] gives_entry(
                    read_items(read)[j],
                    (#[trigger] new_nodes[i]).path@,
                    new_nodes[i].is_dir,
                    show_files,
                    show_hidden,
                    follow_symlinks,
                ),
        forall|i: int| 0 <= i < new_nodes.len() ==> (#[trigger] new_nodes[i]).name@ == name_of(new_nodes[i].path@),
        !show_hidden ==> forall|i: int| 0 <= i < new_nodes.len() ==> !dotted(#[trigger] new_nodes[i].name@),
        !show_files ==> forall|i: int| 0 <= i < new_nodes.len() ==> (#[trigger] new_nodes[i]).is_dir,
        forall|i: int, j: int|
            0 <= i < j < new_nodes.len() ==> !(!(#[trigger] new_nodes[i]).is_dir && (#[trigger] new_nodes[j]).is_dir)
                && (new_nodes[i].is_dir == new_nodes[j].is_dir ==> !seq_lt(new_nodes[j].name@, new_nodes[i].name@)),
        forall|j: int, p: Seq<char>, d: bool|
            0 <= j < read_items(read).len() && #[trigger] gives_entry(
                read_items(read)[j],
                p,
                d,
                show_files,
                show_hidden,
                follow_symlinks,
            ) ==> exists|i: int| 0 <= i < new_nodes.len() && (#[trigger] new_nodes[i]).path@ == p && new_nodes[i].is_dir == d,
{
    broadcast use vstd::seq_lib::group_to_multiset_ensures;
    match read {
        DirRead::Failed(_) => {},
        DirRead::Entries(es) => {
            let sh = shown_keys(es@, show_files, show_hidden, follow_symlinks);
            let ks = keys_of(new_nodes);
            lemma_shown_keys_member(es@, show_files, show_hidden, follow_symlinks);
            lemma_sort_keys_in_order(sh);
            assert(ks == sort_keys(sh));
            assert forall|i: int| 0 <= i < new_nodes.len() implies exists|j: int|
                0 <= j < read_items(read).len() && #[trigger] gives_entry(
                    read_items(read)[j],
                    (#[trigger] new_nodes[i]).path@,
                    new_nodes[i].is_dir,
                    show_files,
                    show_hidden,
                    follow_symlinks,
                ) by {
                let k = ks[i];
                assert(k == (new_nodes[i].path@, new_nodes[i].is_dir));
                assert(ks.to_multiset().count(k) > 0);
                assert(sh.to_multiset().count(k) > 0);
                assert(sh.contains(k));
                let q = choose|q: int| 0 <= q < sh.len() && sh[q] == k;
                assert(sh[q] == k);
                assert(from_read(es@, sh[q].0, sh[q].1, show_files, show_hidden, follow_symlinks));
                let j = choose|j: int|
                    0 <= j < es@.len() && #[trigger] gives_entry(
                        es@[j],
                        sh[q].0,
                        sh[q].1,
                        show_files,
                        show_hidden,
                        follow_symlinks,
                    );
                assert(read_items(read)[j] == es@[j]);
            }
            assert forall|j: int, p: Seq<char>, d: bool|
                0 <= j < read_items(read).len() && #[trigger] gives_entry(
                    read_items(read)[j],
                    p,
                    d,
                    show_files,
                    show_hidden,
                    follow_symlinks,
                ) implies exists|i: int|
                0 <= i < new_nodes.len() && (#[trigger] new_nodes[i]).path@ == p && new_nodes[i].is_dir == d by {
                let k = (p, d);
                assert(sh.contains(k));
                assert(sh.to_multiset().count(k) > 0);
                assert(ks.to_multiset().count(k) > 0);
                assert(ks.contains(k));
                let i = choose|i: int| 0 <= i < ks.len() && ks[i] == k;
                assert(ks[i] == node_key(new_nodes[i]));
            }
            assert forall|i: int, j: int|
                0 <= i < j < new_nodes.len() implies !(!(#[trigger] new_nodes[i]).is_dir && (
                #[trigger] new_nodes[j]).is_dir) && (new_nodes[i].is_dir == new_nodes[j].is_dir ==> !seq_lt(
                new_nodes[j].name@,
                new_nodes[i].name@,
            )) by {
                assert(!key_before(ks[j], ks[i]));
                assert(ks[i] == node_key(new_nodes[i]) && ks[j] == node_key(new_nodes[j]));
                assert(is_fresh_node(new_nodes[i], new_nodes[i].path@, new_nodes[i].is_dir, node.depth + 1));
                assert(is_fresh_node(new_nodes[j], new_nodes[j].path@, new_nodes[j].is_dir, node.depth + 1));
            }
            assert forall|i: int| 0 <= i < new_nodes.len() implies (#[trigger] new_nodes[i]).name@ == name_of(
                new_nodes[i].path@,
            ) by {
                assert(is_fresh_node(new_nodes[i], new_nodes[i].path@, new_nodes[i].is_dir, node.depth + 1));
            }
            assert forall|i: int| 0 <= i < new_nodes.len() implies (!show_hidden ==> !dotted(
                #[trigger] new_nodes[i].name@,
            )) && (!show_files ==> new_nodes[i].is_dir) by {
                assert(is_fresh_node(new_nodes[i], new_nodes[i].path@, new_nodes[i].is_dir, node.depth + 1));
                let j = choose|j: int|
                    0 <= j < read_items(read).len() && #[trigger] gives_entry(
                        read_items(read)[j],
                        new_nodes[i].path@,
                        new_nodes[i].is_dir,
                        show_files,
                        show_hidden,
                        follow_symlinks,
                    );
            }
        },
    }
}

} // verus!
