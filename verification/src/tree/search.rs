//! Search over the names in the tree: the query typed in search mode, the
//! matches among the loaded nodes, the messages of the deep search over the
//! disk (run by the program in the background) and the result list.
//!
//! A query that starts with `/` is a fuzzy query (matched with the skim
//! algorithm of `fuzzy_matcher`); any other query matches names that
//! contain it.  Names are lowercased before matching.
use vstd::prelude::*;
use crate::paths::{file_name, path_eq, path_file_name, same_path};
use crate::text::chars_of;
use crate::tree::navigation::Navigation;
use crate::tree::tree_node::{TreeNode, is_hidden_name, name_of};
use vstd::string::*;

verus! {

/// `str::to_lowercase`: the lowercase equivalent of a text, as Unicode
/// defines it.
pub uninterp spec fn lowercase(s: Seq<char>) -> Seq<char>;

/// What `SkimMatcherV2::default().fuzzy_indices(choice, pattern)` returns:
/// the score and the matched character positions, or `None` when the
/// pattern does not match.
pub uninterp spec fn skim_fuzzy_indices(choice: Seq<char>, pattern: Seq<char>) -> Option<(i64, Seq<usize>)>;

/// Calls `str::to_lowercase`.
/// Trusted: the result is the value named `lowercase` of the argument.
#[verifier::external_body]
fn to_lowercase(s: &str) -> (r: String)
    ensures
        r@ == lowercase(s@),
{
    s.to_lowercase()
}

/// Calls `<SkimMatcherV2 as FuzzyMatcher>::fuzzy_indices` on a matcher made
/// by `SkimMatcherV2::default()`.
/// Trusted: the result, with its positions as a sequence, is the value
/// named `skim_fuzzy_indices` of the two arguments.
#[verifier::external_body]
fn fuzzy_indices(choice: &str, pattern: &str) -> (r: Option<(i64, Vec<usize>)>)
    ensures
        match r {
            Some((score, ix)) => skim_fuzzy_indices(choice@, pattern@) == Some((score, ix@)),
            None => skim_fuzzy_indices(choice@, pattern@) is None,
        },
{
    let matcher = fuzzy_matcher::skim::SkimMatcherV2::default();
    fuzzy_matcher::FuzzyMatcher::fuzzy_indices(&matcher, choice, pattern)
}

/// Calls `String::push`.
/// Trusted: as its documentation says, the character is appended.
#[verifier::external_body]
fn push_char(s: &mut String, c: char)
    ensures
        final(s)@ == old(s)@.push(c),
{
    s.push(c)
}

/// `needle` occurs in `hay` as a contiguous run of characters.
pub open spec fn has_substring(hay: Seq<char>, needle: Seq<char>) -> bool {
    exists|i: int| 0 <= i <= hay.len() - needle.len() && #[trigger] hay.subrange(i, i + needle.len()) == needle
}

/// `hay.contains(needle)` on strings.
pub fn contains_text(hay: &str, needle: &str) -> (r: bool)
    ensures
        r == has_substring(hay@, needle@),
{
    let h = chars_of(hay);
    let n = chars_of(needle);
    if n.len() > h.len() {
        return false;
    }
    let mut i: usize = 0;
    while i <= h.len() - n.len()
        invariant
            h@ == hay@,
            h@.len() <= usize::MAX,
            n@ == needle@,
            n@.len() <= h@.len(),
            i <= h@.len() - n@.len() + 1,
            forall|j: int| 0 <= j < i ==> #[trigger] h@.subrange(j, j + n@.len()) != n@,
        decreases h@.len() - i,
    {
        let mut k: usize = 0;
        let mut same = true;
        while k < n.len()
            invariant
                h@ == hay@,
                n@ == needle@,
                i + n@.len() <= h@.len(),
                h@.len() <= usize::MAX,
                k <= n@.len(),
                same == forall|q: int| 0 <= q < k ==> h@[i + q] == n@[q],
            decreases n@.len() - k,
        {
            if h[i + k] != n[k] {
                same = false;
            }
            k = k + 1;
        }
        if same {
            assert(h@.subrange(i as int, i + n@.len()) =~= n@);
            return true;
        }
        proof {
            assert(h@.subrange(i as int, i + n@.len()) != n@) by {
                let q = choose|q: int| 0 <= q < n@.len() && h@[i + q] != n@[q];
                assert(h@.subrange(i as int, i + n@.len())[q] == h@[i + q]);
            }
        }
        i = i + 1;
    }
    false
}

/// A message of the deep search.
pub enum SearchMessage {
    /// A match: its path, whether it is a directory, and for a fuzzy query
    /// its score and matched positions.
    Result(String, bool, Option<i64>, Option<Vec<usize>>),
    /// The number of directories scanned so far.
    Progress(usize),
    /// The search has finished.
    Done,
}

/// One entry of the result list.
pub struct SearchResult {
    pub path: String,
    pub is_dir: bool,
    pub score: Option<i64>,
    pub match_indices: Option<Vec<usize>>,
}

/// A result as plain values: path, directory flag, score, matched positions.
pub type ResultView = (Seq<char>, bool, Option<i64>, Option<Seq<usize>>);

pub open spec fn opt_seq(o: Option<Vec<usize>>) -> Option<Seq<usize>> {
    match o {
        Some(v) => Some(v@),
        None => None,
    }
}

pub open spec fn result_view(r: SearchResult) -> ResultView {
    (r.path@, r.is_dir, r.score, opt_seq(r.match_indices))
}

pub open spec fn results_view(rs: Seq<SearchResult>) -> Seq<ResultView> {
    rs.map_values(|r: SearchResult| result_view(r))
}

/// The search state.  (The background search itself, its thread and its
/// channels, belong to the program around the library.)
pub struct Search {
    /// Whether the query is being typed.
    pub mode: bool,
    pub query: String,
    /// Whether the query is fuzzy (it starts with `/`).
    pub fuzzy_mode: bool,
    pub results: Vec<SearchResult>,
    pub selected: usize,
    pub show_results: bool,
    pub focus_on_results: bool,
    pub is_searching: bool,
    pub scanned_count: usize,
}

/// The query asks for a fuzzy search.
pub open spec fn starts_with_slash(q: Seq<char>) -> bool {
    q.len() > 0 && q[0] == '/'
}

/// The text searched for: a fuzzy query without its leading `/`.
pub open spec fn search_text(q: Seq<char>, fuzzy: bool) -> Seq<char> {
    if fuzzy {
        if q.len() > 1 {
            q.skip(1)
        } else {
            Seq::empty()
        }
    } else {
        q
    }
}

impl Default for Search {
    fn default() -> (s: Search)
        ensures
            s.idle(),
    {
        Search::new()
    }
}

impl Search {
    /// No search: not typing, empty query, no results, nothing running.
    pub open spec fn idle(&self) -> bool {
        &&& !self.mode
        &&& self.query@ == Seq::<char>::empty()
        &&& !self.fuzzy_mode
        &&& self.results@.len() == 0
        &&& self.selected == 0
        &&& !self.show_results
        &&& !self.focus_on_results
        &&& !self.is_searching
        &&& self.scanned_count == 0
    }

    pub fn new() -> (s: Search)
        ensures
            s.idle(),
    {
        Search {
            mode: false,
            query: String::new(),
            fuzzy_mode: false,
            results: Vec::new(),
            selected: 0,
            show_results: false,
            focus_on_results: false,
            is_searching: false,
            scanned_count: 0,
        }
    }

    /// Starts typing a new (empty) query.
    pub fn enter_mode(&mut self)
        ensures
            *final(self) == (Search { mode: true, query: final(self).query, fuzzy_mode: false, ..*old(self) }),
            final(self).query@ == Seq::<char>::empty(),
    {
        self.mode = true;
        self.query = String::new();
        self.fuzzy_mode = false;
    }

    /// Stops typing and drops the query.
    pub fn exit_mode(&mut self)
        ensures
            *final(self) == (Search { mode: false, query: final(self).query, fuzzy_mode: false, ..*old(self) }),
            final(self).query@ == Seq::<char>::empty(),
    {
        self.mode = false;
        self.query = String::new();
        self.fuzzy_mode = false;
    }

    fn update_fuzzy_mode(&mut self)
        ensures
            *final(self) == (Search { fuzzy_mode: starts_with_slash(old(self).query@), ..*old(self) }),
    {
        self.fuzzy_mode = self.query.as_str().unicode_len() > 0 && self.query.as_str().get_char(0) == '/';
    }

    /// Adds a character to the query.
    pub fn add_char(&mut self, c: char)
        ensures
            *final(self) == (Search { query: final(self).query, fuzzy_mode: final(self).fuzzy_mode, ..*old(self) }),
            final(self).query@ == old(self).query@.push(c),
            final(self).fuzzy_mode == starts_with_slash(final(self).query@),
    {
        push_char(&mut self.query, c);
        self.update_fuzzy_mode();
    }

    /// Removes the last character of the query, if any.
    pub fn backspace(&mut self)
        ensures
            *final(self) == (Search { query: final(self).query, fuzzy_mode: final(self).fuzzy_mode, ..*old(self) }),
            final(self).query@ == if old(self).query@.len() > 0 {
                old(self).query@.drop_last()
            } else {
                old(self).query@
            },
            final(self).fuzzy_mode == starts_with_slash(final(self).query@),
    {
        let n = self.query.as_str().unicode_len();
        if n > 0 {
            let rest = String::from_str(self.query.as_str().substring_char(0, n - 1));
            self.query = rest;
        }
        self.update_fuzzy_mode();
    }

    /// The text to search for: the query, without the leading `/` of a
    /// fuzzy query.
    pub fn get_search_query(&self) -> (r: &str)
        requires
            self.fuzzy_mode && self.query@.len() > 0 ==> (self.query@[0] as u32) < 0x80,
        ensures
            r@ == search_text(self.query@, self.fuzzy_mode),
    {
        let n = self.query.as_str().unicode_len();
        if self.fuzzy_mode && n > 1 {
            self.query.as_str().substring_char(1, n)
        } else if self.fuzzy_mode {
            proof {
                reveal_strlit("");
            }
            ""
        } else {
            self.query.as_str()
        }
    }
}

/// How a name matches a lowercased query: `Some((score, positions))` when
/// it does (both `None` for a plain query), `None` when it does not.
pub open spec fn name_hit(name: Seq<char>, query: Seq<char>, fuzzy: bool) -> Option<(Option<i64>, Option<Seq<usize>>)> {
    if fuzzy {
        match skim_fuzzy_indices(lowercase(name), query) {
            Some((score, ix)) => Some((Some(score), Some(ix))),
            None => None,
        }
    } else if has_substring(lowercase(name), query) {
        Some((None, None))
    } else {
        None
    }
}

/// The result a node gives on its own, if any: files count only when
/// files are shown.
pub open spec fn node_hits(n: TreeNode, query: Seq<char>, show_files: bool, fuzzy: bool) -> Seq<ResultView> {
    if (show_files || n.is_dir) && name_hit(n.name@, query, fuzzy) is Some {
        let h = name_hit(n.name@, query, fuzzy)->0;
        seq![(n.path@, n.is_dir, h.0, h.1)]
    } else {
        seq![]
    }
}

/// A name that starts with a dot.
pub open spec fn hidden(name: Seq<char>) -> bool {
    name.len() > 0 && name[0] == '.'
}

/// The results among the loaded nodes from node `i` down, in tree order:
/// a hidden node (when hidden entries are not shown) is skipped with
/// everything below it; the children of an expanded node are searched.
pub open spec fn loaded_hits(
    nodes: Seq<TreeNode>,
    i: int,
    query: Seq<char>,
    show_files: bool,
    show_hidden: bool,
    fuzzy: bool,
) -> Seq<ResultView>
    decreases nodes.len() - i, 1nat, 0nat,
{
    if 0 <= i < nodes.len() {
        if !show_hidden && hidden(nodes[i].name@) {
            seq![]
        } else {
            node_hits(nodes[i], query, show_files, fuzzy) + if nodes[i].is_expanded {
                children_hits(nodes, i, nodes[i].children@, query, show_files, show_hidden, fuzzy)
            } else {
                seq![]
            }
        }
    } else {
        seq![]
    }
}

/// The results from the children `cs` of `p`, one after another.
pub open spec fn children_hits(
    nodes: Seq<TreeNode>,
    p: int,
    cs: Seq<usize>,
    query: Seq<char>,
    show_files: bool,
    show_hidden: bool,
    fuzzy: bool,
) -> Seq<ResultView>
    decreases nodes.len() - p, 0nat, cs.len(),
{
    if cs.len() == 0 {
        seq![]
    } else if 0 <= p < cs.last() < nodes.len() {
        children_hits(nodes, p, cs.drop_last(), query, show_files, show_hidden, fuzzy) + loaded_hits(
            nodes,
            cs.last() as int,
            query,
            show_files,
            show_hidden,
            fuzzy,
        )
    } else {
        children_hits(nodes, p, cs.drop_last(), query, show_files, show_hidden, fuzzy)
    }
}

/// A name matches a lowercased query: for a fuzzy query the skim matcher
/// accepts the lowercased name; for a plain one the lowercased name
/// contains the query.
pub open spec fn name_matches(name: Seq<char>, query: Seq<char>, fuzzy: bool) -> bool {
    if fuzzy {
        skim_fuzzy_indices(lowercase(name), query) is Some
    } else {
        has_substring(lowercase(name), query)
    }
}

/// Node `n` justifies the result `v`: the result is the node (its path and
/// kind), the node's name matches the query, it is a file only when files
/// are shown, and its name starts with a dot only when hidden entries are.
pub open spec fn justifies(n: TreeNode, v: ResultView, query: Seq<char>, show_files: bool, show_hidden: bool, fuzzy: bool) -> bool {
    &&& n.path@ == v.0
    &&& n.is_dir == v.1
    &&& name_matches(n.name@, query, fuzzy)
    &&& show_files || n.is_dir
    &&& show_hidden || !hidden(n.name@)
}

/// Some node of `nodes` justifies the result `v`.
pub open spec fn justified(
    nodes: Seq<TreeNode>,
    v: ResultView,
    query: Seq<char>,
    show_files: bool,
    show_hidden: bool,
    fuzzy: bool,
) -> bool {
    exists|j: int| 0 <= j < nodes.len() && #[trigger] justifies(nodes[j], v, query, show_files, show_hidden, fuzzy)
}

/// Every result in `rs` is justified by some node of `nodes`.
pub open spec fn all_justified(
    nodes: Seq<TreeNode>,
    rs: Seq<ResultView>,
    query: Seq<char>,
    show_files: bool,
    show_hidden: bool,
    fuzzy: bool,
) -> bool {
    forall|q: int| 0 <= q < rs.len() ==> #[trigger] justified(nodes, rs[q], query, show_files, show_hidden, fuzzy)
}

proof fn lemma_justified_concat(
    nodes: Seq<TreeNode>,
    a: Seq<ResultView>,
    b: Seq<ResultView>,
    query: Seq<char>,
    show_files: bool,
    show_hidden: bool,
    fuzzy: bool,
)
    requires
        all_justified(nodes, a, query, show_files, show_hidden, fuzzy),
        all_justified(nodes, b, query, show_files, show_hidden, fuzzy),
    ensures
        all_justified(nodes, a + b, query, show_files, show_hidden, fuzzy),
{
    assert forall|q: int| 0 <= q < (a + b).len() implies #[trigger] justified(
        nodes,
        (a + b)[q],
        query,
        show_files,
        show_hidden,
        fuzzy,
    ) by {
        if q < a.len() {
            assert((a + b)[q] == a[q]);
            assert(justified(nodes, a[q], query, show_files, show_hidden, fuzzy));
        } else {
            assert((a + b)[q] == b[q - a.len()]);
            assert(justified(nodes, b[q - a.len()], query, show_files, show_hidden, fuzzy));
        }
    }
}

proof fn lemma_loaded_hits_justified(
    nodes: Seq<TreeNode>,
    i: int,
    query: Seq<char>,
    show_files: bool,
    show_hidden: bool,
    fuzzy: bool,
)
    ensures
        all_justified(nodes, loaded_hits(nodes, i, query, show_files, show_hidden, fuzzy), query, show_files, show_hidden, fuzzy),
    decreases nodes.len() - i, 1nat, 0nat,
{
    if 0 <= i < nodes.len() && !(!show_hidden && hidden(nodes[i].name@)) {
        let own = node_hits(nodes[i], query, show_files, fuzzy);
        assert(all_justified(nodes, own, query, show_files, show_hidden, fuzzy)) by {
            if own.len() > 0 {
                assert(justifies(nodes[i], own[0], query, show_files, show_hidden, fuzzy));
                assert(justified(nodes, own[0], query, show_files, show_hidden, fuzzy));
            }
        }
        if nodes[i].is_expanded {
            lemma_children_hits_justified(nodes, i, nodes[i].children@, query, show_files, show_hidden, fuzzy);
            lemma_justified_concat(
                nodes,
                own,
                children_hits(nodes, i, nodes[i].children@, query, show_files, show_hidden, fuzzy),
                query,
                show_files,
                show_hidden,
                fuzzy,
            );
        } else {
            assert(own + Seq::<ResultView>::empty() =~= own);
        }
    }
}

proof fn lemma_children_hits_justified(
    nodes: Seq<TreeNode>,
    p: int,
    cs: Seq<usize>,
    query: Seq<char>,
    show_files: bool,
    show_hidden: bool,
    fuzzy: bool,
)
    ensures
        all_justified(nodes, children_hits(nodes, p, cs, query, show_files, show_hidden, fuzzy), query, show_files, show_hidden, fuzzy),
    decreases nodes.len() - p, 0nat, cs.len(),
{
    if cs.len() > 0 {
        lemma_children_hits_justified(nodes, p, cs.drop_last(), query, show_files, show_hidden, fuzzy);
        if 0 <= p < cs.last() < nodes.len() {
            lemma_loaded_hits_justified(nodes, cs.last() as int, query, show_files, show_hidden, fuzzy);
            lemma_justified_concat(
                nodes,
                children_hits(nodes, p, cs.drop_last(), query, show_files, show_hidden, fuzzy),
                loaded_hits(nodes, cs.last() as int, query, show_files, show_hidden, fuzzy),
                query,
                show_files,
                show_hidden,
                fuzzy,
            );
        }
    }
}

/// Every result of searching the loaded tree is a node of the tree whose
/// name, the final component of the result's path, matches the query:
/// lowercased, it contains a plain query, or the fuzzy matcher accepts it
/// for a fuzzy one.  A file is a result only when files are shown, and a
/// name starting with a dot only when hidden entries are.  A node whose
/// name does not match never appears.
pub proof fn lemma_search_results_match_names(
    nav: &Navigation,
    query: Seq<char>,
    show_files: bool,
    show_hidden: bool,
    fuzzy: bool,
)
    requires
        nav.wf(),
    ensures
        forall|q: int|
            0 <= q < loaded_hits(nav.nodes@, 0, query, show_files, show_hidden, fuzzy).len() ==> {
                let v = #[trigger] loaded_hits(nav.nodes@, 0, query, show_files, show_hidden, fuzzy)[q];
                &&& name_matches(name_of(v.0), query, fuzzy)
                &&& show_hidden || !hidden(name_of(v.0))
                &&& exists|j: int|
                    0 <= j < nav.nodes@.len() && #[trigger] nav.nodes@[j].path@ == v.0 && nav.nodes@[j].is_dir
                        == v.1 && (show_files || v.1)
            },
{
    let rs = loaded_hits(nav.nodes@, 0, query, show_files, show_hidden, fuzzy);
    lemma_loaded_hits_justified(nav.nodes@, 0, query, show_files, show_hidden, fuzzy);
    crate::tree::navigation::lemma_node_names(nav);
    assert forall|q: int| 0 <= q < rs.len() implies {
        let v = #[trigger] rs[q];
        &&& name_matches(name_of(v.0), query, fuzzy)
        &&& show_hidden || !hidden(name_of(v.0))
        &&& exists|j: int|
            0 <= j < nav.nodes@.len() && #[trigger] nav.nodes@[j].path@ == v.0 && nav.nodes@[j].is_dir == v.1 && (
            show_files || v.1)
    } by {
        assert(justified(nav.nodes@, rs[q], query, show_files, show_hidden, fuzzy));
        let j = choose|j: int|
            0 <= j < nav.nodes@.len() && #[trigger] justifies(
                nav.nodes@[j],
                rs[q],
                query,
                show_files,
                show_hidden,
                fuzzy,
            );
        assert(nav.nodes@[j].name@ == name_of(nav.nodes@[j].path@));
    }
}

/// The match of a name against a lowercased query.
fn match_name(name: &str, query: &str, fuzzy: bool) -> (r: Option<(Option<i64>, Option<Vec<usize>>)>)
    ensures
        match r {
            Some((score, ix)) => name_hit(name@, query@, fuzzy) == Some((score, opt_seq(ix))),
            None => name_hit(name@, query@, fuzzy) is None,
        },
{
    let lower = to_lowercase(name);
    if fuzzy {
        match fuzzy_indices(lower.as_str(), query) {
            Some((score, ix)) => Some((Some(score), Some(ix))),
            None => None,
        }
    } else if contains_text(lower.as_str(), query) {
        Some((None, None))
    } else {
        None
    }
}

impl Search {
    /// Appends the results among the loaded nodes from `node` down.
    #[verifier::spinoff_prover]
    #[verifier::rlimit(40)]
    fn search_loaded_nodes(
        &mut self,
        nav: &Navigation,
        node: usize,
        query: &str,
        show_files: bool,
        show_hidden: bool,
        fuzzy: bool,
    )
        requires
            nav.wf(),
            node < nav.nodes@.len(),
        ensures
            results_view(final(self).results@) == results_view(old(self).results@) + loaded_hits(
                nav.nodes@,
                node as int,
                query@,
                show_files,
                show_hidden,
                fuzzy,
            ),
            *final(self) == (Search { results: final(self).results, ..*old(self) }),
        decreases nav.nodes@.len() - node,
    {
        let ghost start = results_view(self.results@);
        let n = &nav.nodes[node];
        if !show_hidden && n.name.as_str().unicode_len() > 0 && n.name.as_str().get_char(0) == '.' {
            return;
        }
        if show_files || n.is_dir {
            match match_name(n.name.as_str(), query, fuzzy) {
                Some((score, ix)) => {
                    let ghost before = self.results@;
                    self.results.push(
                        SearchResult { path: n.path.clone(), is_dir: n.is_dir, score, match_indices: ix },
                    );
                    assert(results_view(self.results@) =~= results_view(before).push(
                        result_view(self.results@.last()),
                    ));
                },
                None => {},
            }
        }
        let ghost mid = results_view(self.results@);
        assert(mid =~= start + node_hits(nav.nodes@[node as int], query@, show_files, fuzzy));
        if n.is_expanded {
            let k = n.children.len();
            let ghost cs = nav.nodes@[node as int].children@;
            proof {
                nav.lemma_arena_children(node as int);
                assert(cs.take(0) =~= Seq::<usize>::empty());
            }
            let mut j: usize = 0;
            while j < k
                invariant
                    nav.wf(),
                    node < nav.nodes@.len(),
                    cs == nav.nodes@[node as int].children@,
                    k == cs.len(),
                    j <= k,
                    forall|q: int| 0 <= q < cs.len() ==> node < #[trigger] cs[q] < nav.nodes@.len(),
                    results_view(self.results@) == mid + children_hits(
                        nav.nodes@,
                        node as int,
                        cs.take(j as int),
                        query@,
                        show_files,
                        show_hidden,
                        fuzzy,
                    ),
                    *self == (Search { results: self.results, ..*old(self) }),
                decreases k - j,
            {
                let c = nav.nodes[node].children[j];
                proof {
                    assert(cs.take(j + 1).drop_last() =~= cs.take(j as int));
                    assert(cs.take(j + 1).last() == c);
                }
                self.search_loaded_nodes(nav, c, query, show_files, show_hidden, fuzzy);
                j = j + 1;
            }
            proof {
                assert(cs.take(k as int) =~= cs);
            }
        }
    }
}

/// What the program needs to run the deep search over the disk: the root
/// to walk, the lowercased text to look for, and the display options.
pub struct DeepSearch {
    pub root: String,
    pub query: String,
    pub show_files: bool,
    pub show_hidden: bool,
    pub follow_symlinks: bool,
    pub fuzzy: bool,
}

impl Search {
    /// Starts a search for the current query: results of a previous search
    /// are dropped; an empty search text closes the results; otherwise the
    /// loaded nodes are searched at once, the results are shown and focused,
    /// typing ends, and the deep search that the program must start is
    /// returned.
    pub fn perform_search(
        &mut self,
        nav: &Navigation,
        show_files: bool,
        show_hidden: bool,
        follow_symlinks: bool,
    ) -> (r: Option<DeepSearch>)
        requires
            nav.wf(),
            old(self).fuzzy_mode && old(self).query@.len() > 0 ==> (old(self).query@[0] as u32) < 0x80,
        ensures
            ({
                let text = search_text(old(self).query@, old(self).fuzzy_mode);
                if text.len() == 0 {
                    &&& r is None
                    &&& final(self).results@.len() == 0
                    &&& *final(self) == (Search {
                        results: final(self).results,
                        selected: 0,
                        scanned_count: 0,
                        show_results: false,
                        is_searching: false,
                        ..*old(self)
                    })
                } else {
                    &&& results_view(final(self).results@) == loaded_hits(
                        nav.nodes@,
                        0,
                        lowercase(text),
                        show_files,
                        show_hidden,
                        old(self).fuzzy_mode,
                    )
                    &&& *final(self) == (Search {
                        results: final(self).results,
                        selected: 0,
                        scanned_count: 0,
                        show_results: true,
                        focus_on_results: true,
                        mode: false,
                        is_searching: true,
                        ..*old(self)
                    })
                    &&& r matches Some(d) && d.root@ == nav.nodes@[0].path@ && d.query@ == lowercase(text)
                        && d.show_files == show_files && d.show_hidden == show_hidden && d.follow_symlinks
                        == follow_symlinks && d.fuzzy == old(self).fuzzy_mode
                }
            }),
    {
        self.cancel_search();
        self.results = Vec::new();
        self.selected = 0;
        self.scanned_count = 0;
        let text = String::from_str(self.get_search_query());
        if text.as_str().unicode_len() == 0 {
            self.show_results = false;
            self.is_searching = false;
            return None;
        }
        let query_lower = to_lowercase(text.as_str());
        let is_fuzzy = self.fuzzy_mode;
        proof {
            crate::tree::navigation::lemma_flat_list_in_arena(nav);
        }
        self.search_loaded_nodes(nav, 0, query_lower.as_str(), show_files, show_hidden, is_fuzzy);
        assert(results_view(self.results@) =~= loaded_hits(nav.nodes@, 0, query_lower@, show_files, show_hidden, is_fuzzy));
        self.show_results = true;
        self.focus_on_results = true;
        self.mode = false;
        self.is_searching = true;
        Some(DeepSearch {
            root: nav.nodes[0].path.clone(),
            query: query_lower,
            show_files,
            show_hidden,
            follow_symlinks,
            fuzzy: is_fuzzy,
        })
    }

    /// Marks the search as stopped (the program stops its background walk).
    pub fn cancel_search(&mut self)
        ensures
            *final(self) == (Search { is_searching: false, ..*old(self) }),
    {
        self.is_searching = false;
    }
}

/// What the deep search does at one path of its walk.
pub struct DeepVisit {
    /// A match to report.
    pub result: Option<SearchMessage>,
    /// A progress report to send (the new count of scanned directories).
    pub progress: Option<usize>,
    /// Whether to walk into the path's entries (it is a directory).
    pub descend: bool,
    /// The count of scanned directories after this path.
    pub scanned: usize,
}

/// Whether the deep search passes over a path, with nothing below it:
/// a symbolic link when links are not followed, a file when files are not
/// shown, a hidden name when hidden entries are not shown.
pub open spec fn visit_skipped(
    path: Seq<char>,
    is_symlink: bool,
    is_dir: bool,
    show_files: bool,
    show_hidden: bool,
    follow_symlinks: bool,
) -> bool {
    ||| !follow_symlinks && is_symlink
    ||| !is_dir && !show_files
    ||| !show_hidden && is_hidden_name(path_file_name(path))
}

/// One step of the deep search at `path` (`is_symlink`: the path itself is
/// a symbolic link; `is_dir`: it leads to a directory), with `scanned`
/// directories scanned before it: a match of its file name is reported, and
/// a directory is counted (every hundredth count is reported) and walked.
pub fn deep_search_visit(
    path: &str,
    is_symlink: bool,
    is_dir: bool,
    query: &str,
    show_files: bool,
    show_hidden: bool,
    follow_symlinks: bool,
    fuzzy: bool,
    scanned: usize,
) -> (v: DeepVisit)
    requires
        scanned < usize::MAX,
    ensures
        visit_skipped(path@, is_symlink, is_dir, show_files, show_hidden, follow_symlinks) ==> {
            &&& v.result is None
            &&& v.progress is None
            &&& !v.descend
            &&& v.scanned == scanned
        },
        !visit_skipped(path@, is_symlink, is_dir, show_files, show_hidden, follow_symlinks) ==> {
            &&& match v.result {
                Some(SearchMessage::Result(p, d, score, ix)) => {
                    &&& p@ == path@
                    &&& d == is_dir
                    &&& path_file_name(path@) matches Some(name) && name_hit(name, query@, fuzzy) == Some(
                        (score, opt_seq(ix)),
                    )
                },
                Some(_) => false,
                None => path_file_name(path@) matches Some(name) ==> name_hit(name, query@, fuzzy) is None,
            }
            &&& v.descend == is_dir
            &&& v.scanned == if is_dir { scanned + 1 } else { scanned as int }
            &&& v.progress == if is_dir && (scanned + 1) % 100 == 0 {
                Some((scanned + 1) as usize)
            } else {
                None::<usize>
            }
        },
        (v.result is Some) == ((follow_symlinks || !is_symlink) && (show_files || is_dir) && (show_hidden || !(
        path_file_name(path@) matches Some(n) && hidden(n))) && (path_file_name(path@) matches Some(n)
            && name_matches(n, query@, fuzzy))),
        v.result matches Some(m) ==> m matches SearchMessage::Result(p, d, _, _) && p@ == path@ && d == is_dir,
{
    let skipped = DeepVisit { result: None, progress: None, descend: false, scanned };
    if !follow_symlinks && is_symlink {
        return skipped;
    }
    if !is_dir && !show_files {
        return skipped;
    }
    let name = file_name(path);
    if !show_hidden {
        match &name {
            Some(n) => {
                if n.as_str().unicode_len() > 0 && n.as_str().get_char(0) == '.' {
                    return skipped;
                }
            },
            None => {},
        }
    }
    let result = match &name {
        Some(n) => match match_name(n.as_str(), query, fuzzy) {
            Some((score, ix)) => Some(SearchMessage::Result(String::from_str(path), is_dir, score, ix)),
            None => None,
        },
        None => None,
    };
    if is_dir {
        let count = scanned + 1;
        DeepVisit { result, progress: if count % 100 == 0 { Some(count) } else { None }, descend: true, scanned: count }
    } else {
        DeepVisit { result, progress: None, descend: false, scanned }
    }
}

/// Some result in `rs` has a path equal to `p`.
pub open spec fn known_path(rs: Seq<ResultView>, p: Seq<char>) -> bool {
    exists|i: int| 0 <= i < rs.len() && path_eq(#[trigger] rs[i].0, p)
}

/// The results after taking in `msgs`: each reported match whose path is
/// not among the results yet is appended.
pub open spec fn absorbed(rs: Seq<ResultView>, msgs: Seq<SearchMessage>) -> Seq<ResultView>
    decreases msgs.len(),
{
    if msgs.len() == 0 {
        rs
    } else {
        let before = absorbed(rs, msgs.drop_last());
        match msgs.last() {
            SearchMessage::Result(p, d, score, ix) => if known_path(before, p@) {
                before
            } else {
                before.push((p@, d, score, opt_seq(ix)))
            },
            _ => before,
        }
    }
}

/// The scanned count after taking in `msgs`: that of the last progress
/// report, if any.
pub open spec fn last_progress(scanned: nat, msgs: Seq<SearchMessage>) -> nat
    decreases msgs.len(),
{
    if msgs.len() == 0 {
        scanned
    } else {
        match msgs.last() {
            SearchMessage::Progress(c) => c as nat,
            _ => last_progress(scanned, msgs.drop_last()),
        }
    }
}

/// `msgs` report that the search has finished.
pub open spec fn saw_done(msgs: Seq<SearchMessage>) -> bool {
    exists|i: int| 0 <= i < msgs.len() && #[trigger] msgs[i] is Done
}

/// Taking in `msgs` changes what is shown: a new match, a progress report
/// or the end of the search.
pub open spec fn brings_news(rs: Seq<ResultView>, msgs: Seq<SearchMessage>) -> bool
    decreases msgs.len(),
{
    if msgs.len() == 0 {
        false
    } else {
        brings_news(rs, msgs.drop_last()) || match msgs.last() {
            SearchMessage::Result(p, _, _, _) => !known_path(absorbed(rs, msgs.drop_last()), p@),
            _ => true,
        }
    }
}

/// The rank of a score: scored results before unscored ones, higher scores
/// first.
pub open spec fn rank(score: Option<i64>) -> int {
    match score {
        Some(x) => x as int,
        None => i64::MIN - 1,
    }
}

/// `a` sorts strictly before `b`.
pub open spec fn ranks_before(a: ResultView, b: ResultView) -> bool {
    rank(a.2) > rank(b.2)
}

/// Inserts `x` into `s` after every element that does not sort after it.
pub open spec fn insert_by_score(s: Seq<ResultView>, x: ResultView) -> Seq<ResultView>
    decreases s.len(),
{
    if s.len() > 0 && ranks_before(x, s.last()) {
        insert_by_score(s.drop_last(), x).push(s.last())
    } else {
        s.push(x)
    }
}

/// The stable sort of `s` by score, best first.
pub open spec fn sort_by_score(s: Seq<ResultView>) -> Seq<ResultView>
    decreases s.len(),
{
    if s.len() == 0 {
        s
    } else {
        insert_by_score(sort_by_score(s.drop_last()), s.last())
    }
}

/// Whether a result with a path equal to `path` is in the list.
fn has_result(results: &Vec<SearchResult>, path: &str) -> (r: bool)
    ensures
        r == known_path(results_view(results@), path@),
{
    let ghost rs = results_view(results@);
    let mut i: usize = 0;
    while i < results.len()
        invariant
            rs == results_view(results@),
            i <= results@.len(),
            forall|j: int| 0 <= j < i ==> !path_eq(#[trigger] rs[j].0, path@),
        decreases results@.len() - i,
    {
        if same_path(results[i].path.as_str(), path) {
            assert(path_eq(rs[i as int].0, path@));
            return true;
        }
        i = i + 1;
    }
    false
}

fn score_rank_before(a: Option<i64>, b: Option<i64>) -> (r: bool)
    ensures
        r == (rank(a) > rank(b)),
{
    match (a, b) {
        (Some(x), Some(y)) => x > y,
        (Some(_), None) => true,
        _ => false,
    }
}

/// Sorts the results by score, best first, keeping the order of equal ones.
fn sort_results(v: Vec<SearchResult>) -> (r: Vec<SearchResult>)
    ensures
        results_view(r@) == sort_by_score(results_view(v@)),
{
    let ghost v0 = results_view(v@);
    let ghost n = v@.len();
    let len0 = v.len();
    assert(n == len0);
    let mut rest = v;
    let mut rev: Vec<SearchResult> = Vec::new();
    while rest.len() > 0
        invariant
            rev@.len() + rest@.len() == n,
            n == v0.len(),
            n <= usize::MAX,
            forall|k: int| 0 <= k < rest@.len() ==> result_view(#[trigger] rest@[k]) == v0[k],
            forall|k: int| 0 <= k < rev@.len() ==> result_view(#[trigger] rev@[k]) == v0[n - 1 - k],
        decreases rest.len(),
    {
        let x = rest.pop().unwrap();
        rev.push(x);
    }
    let mut out: Vec<SearchResult> = Vec::new();
    let mut taken: usize = 0;
    while rev.len() > 0
        invariant
            taken + rev@.len() == n,
            n == v0.len(),
            n <= usize::MAX,
            forall|k: int| 0 <= k < rev@.len() ==> result_view(#[trigger] rev@[k]) == v0[n - 1 - k],
            results_view(out@) == sort_by_score(v0.take(taken as int)),
        decreases rev.len(),
    {
        let x = rev.pop().unwrap();
        assert(result_view(x) == v0[taken as int]);
        let ghost ks = results_view(out@);
        let mut pos = out.len();
        assert(ks.take(pos as int) =~= ks);
        assert(ks.skip(pos as int) =~= Seq::<ResultView>::empty());
        while pos > 0 && score_rank_before(x.score, out[pos - 1].score)
            invariant
                pos <= out@.len(),
                ks == results_view(out@),
                insert_by_score(ks, result_view(x)) == insert_by_score(ks.take(pos as int), result_view(x))
                    + ks.skip(pos as int),
            decreases pos,
        {
            let ghost p = pos as int;
            assert(ks.take(p).drop_last() =~= ks.take(p - 1));
            assert(ks.take(p).last() == ks[p - 1]);
            assert(ks.skip(p - 1) =~= seq![ks[p - 1]] + ks.skip(p));
            assert(insert_by_score(ks.take(p - 1), result_view(x)).push(ks[p - 1]) + ks.skip(p)
                =~= insert_by_score(ks.take(p - 1), result_view(x)) + ks.skip(p - 1));
            pos = pos - 1;
        }
        proof {
            let p = pos as int;
            if p > 0 {
                assert(ks.take(p).last() == ks[p - 1]);
            }
            assert(insert_by_score(ks.take(p), result_view(x)) == ks.take(p).push(result_view(x)));
            assert(v0.take(taken + 1).drop_last() =~= v0.take(taken as int));
            assert(v0.take(taken + 1).last() == result_view(x));
        }
        let ghost before = out@;
        out.insert(pos, x);
        proof {
            let p = pos as int;
            assert(results_view(out@) =~= ks.take(p).push(result_view(x)) + ks.skip(p));
        }
        taken = taken + 1;
    }
    proof {
        assert(v0.take(n as int) =~= v0);
    }
    out
}

impl Search {
    /// Takes in the messages that the deep search sent since the last poll,
    /// in order: a match whose path is not among the results yet is
    /// appended, a progress report sets the scanned count, and the end of
    /// the search stops it and, for a fuzzy query, sorts the results by
    /// score (best first, equal scores in the order found).  Returns whether
    /// anything changed that should be redrawn.
    pub fn poll_results(&mut self, messages: Vec<SearchMessage>) -> (r: bool)
        ensures
            r == brings_news(results_view(old(self).results@), messages@),
            results_view(final(self).results@) == if saw_done(messages@) && old(self).fuzzy_mode {
                sort_by_score(absorbed(results_view(old(self).results@), messages@))
            } else {
                absorbed(results_view(old(self).results@), messages@)
            },
            final(self).scanned_count == last_progress(old(self).scanned_count as nat, messages@),
            final(self).is_searching == (old(self).is_searching && !saw_done(messages@)),
            *final(self) == (Search {
                results: final(self).results,
                scanned_count: final(self).scanned_count,
                is_searching: final(self).is_searching,
                ..*old(self)
            }),
    {
        let ghost rs0 = results_view(self.results@);
        let ghost m0 = messages@;
        let ghost n = m0.len();
        let len0 = messages.len();
        assert(n == len0);
        let mut rest = messages;
        let mut rev: Vec<SearchMessage> = Vec::new();
        while rest.len() > 0
            invariant
                rev@.len() + rest@.len() == n,
                n == m0.len(),
                forall|k: int| 0 <= k < rest@.len() ==> #[trigger] rest@[k] == m0[k],
                forall|k: int| 0 <= k < rev@.len() ==> #[trigger] rev@[k] == m0[n - 1 - k],
            decreases rest.len(),
        {
            let x = rest.pop().unwrap();
            rev.push(x);
        }
        let mut has_updates = false;
        let mut search_done = false;
        let mut taken: usize = 0;
        proof {
            assert(m0.take(0) =~= Seq::<SearchMessage>::empty());
        }
        while rev.len() > 0
            invariant
                taken + rev@.len() == n,
                n == m0.len(),
                n <= usize::MAX,
                forall|k: int| 0 <= k < rev@.len() ==> #[trigger] rev@[k] == m0[n - 1 - k],
                results_view(self.results@) == absorbed(rs0, m0.take(taken as int)),
                self.scanned_count == last_progress(old(self).scanned_count as nat, m0.take(taken as int)),
                has_updates == brings_news(rs0, m0.take(taken as int)),
                search_done == saw_done(m0.take(taken as int)),
                *self == (Search {
                    results: self.results,
                    scanned_count: self.scanned_count,
                    ..*old(self)
                }),
                rs0 == results_view(old(self).results@),
            decreases rev.len(),
        {
            let msg = rev.pop().unwrap();
            let ghost t1 = m0.take(taken + 1);
            proof {
                assert(msg == m0[taken as int]);
                assert(t1.drop_last() =~= m0.take(taken as int));
                assert(t1.last() == msg);
            }
            let ghost before = self.results@;
            match msg {
                SearchMessage::Result(path, is_dir, score, match_indices) => {
                    if !has_result(&self.results, path.as_str()) {
                        self.results.push(SearchResult { path, is_dir, score, match_indices });
                        has_updates = true;
                        assert(results_view(self.results@) =~= results_view(before).push(
                            result_view(self.results@.last()),
                        ));
                    }
                },
                SearchMessage::Progress(count) => {
                    self.scanned_count = count;
                    has_updates = true;
                },
                SearchMessage::Done => {
                    search_done = true;
                    has_updates = true;
                    assert(t1[taken as int] is Done);
                },
            }
            proof {
                if saw_done(t1) && !saw_done(m0.take(taken as int)) {
                    let i = choose|i: int| 0 <= i < t1.len() && #[trigger] t1[i] is Done;
                    if i < taken {
                        assert(m0.take(taken as int)[i] is Done);
                    }
                }
                if saw_done(m0.take(taken as int)) {
                    let i = choose|i: int| 0 <= i < taken && #[trigger] m0.take(taken as int)[i] is Done;
                    assert(t1[i] is Done);
                }
            }
            taken = taken + 1;
        }
        proof {
            assert(m0.take(n as int) =~= m0);
        }
        if search_done {
            self.is_searching = false;
            if self.fuzzy_mode {
                let mut v: Vec<SearchResult> = Vec::new();
                std::mem::swap(&mut v, &mut self.results);
                self.results = sort_results(v);
            }
        }
        has_updates
    }
}

impl Search {
    /// Moves the selection one result down, unless it is on the last one
    /// (or beyond).
    pub fn move_down(&mut self)
        ensures
            *final(self) == (Search {
                selected: if old(self).selected + 1 < old(self).results@.len() {
                    (old(self).selected + 1) as usize
                } else {
                    old(self).selected
                },
                ..*old(self)
            }),
    {
        let last = if self.results.len() > 0 { self.results.len() - 1 } else { 0 };
        if self.selected < last {
            self.selected = self.selected + 1;
        }
    }

    /// Moves the selection one result up, stopping at the first.
    pub fn move_up(&mut self)
        ensures
            *final(self) == (Search {
                selected: if old(self).selected > 0 { (old(self).selected - 1) as usize } else { 0 },
                ..*old(self)
            }),
    {
        if self.selected > 0 {
            self.selected = self.selected - 1;
        }
    }

    /// The path of the selected result, if the selection is on one.
    pub fn get_selected_result(&self) -> (r: Option<String>)
        ensures
            r == if self.selected < self.results@.len() {
                Some(self.results@[self.selected as int].path)
            } else {
                None::<String>
            },
    {
        if self.selected < self.results.len() {
            Some(self.results[self.selected].path.clone())
        } else {
            None
        }
    }

    /// Closes the result list: the search stops and its results are dropped.
    pub fn close_results(&mut self)
        ensures
            final(self).results@.len() == 0,
            *final(self) == (Search {
                results: final(self).results,
                is_searching: false,
                show_results: false,
                selected: 0,
                focus_on_results: false,
                scanned_count: 0,
                ..*old(self)
            }),
    {
        self.cancel_search();
        self.show_results = false;
        self.results = Vec::new();
        self.selected = 0;
        self.focus_on_results = false;
        self.scanned_count = 0;
    }
}

/// No two results have equal paths.
pub open spec fn distinct_paths(rs: Seq<ResultView>) -> bool {
    forall|i: int, j: int| 0 <= i < j < rs.len() ==> !path_eq(#[trigger] rs[i].0, #[trigger] rs[j].0)
}

/// Taking in the deep search's messages never adds a path that is already
/// among the results: results with distinct paths stay distinct.
pub proof fn lemma_absorbed_distinct(rs: Seq<ResultView>, msgs: Seq<SearchMessage>)
    requires
        distinct_paths(rs),
    ensures
        distinct_paths(absorbed(rs, msgs)),
    decreases msgs.len(),
{
    if msgs.len() > 0 {
        lemma_absorbed_distinct(rs, msgs.drop_last());
        let before = absorbed(rs, msgs.drop_last());
        match msgs.last() {
            SearchMessage::Result(p, d, score, ix) => {
                if !known_path(before, p@) {
                    let after = before.push((p@, d, score, opt_seq(ix)));
                    assert forall|i: int, j: int| 0 <= i < j < after.len() implies !path_eq(
                        #[trigger] after[i].0,
                        #[trigger] after[j].0,
                    ) by {
                        if j == after.len() - 1 {
                            assert(after[i] == before[i]);
                            if path_eq(before[i].0, p@) {
                                assert(known_path(before, p@));
                            }
                        } else {
                            assert(after[i] == before[i] && after[j] == before[j]);
                        }
                    }
                }
            },
            _ => {},
        }
    }
}

/// Results in score order: none ranks before an earlier one.
pub open spec fn in_score_order(s: Seq<ResultView>) -> bool {
    forall|i: int, j: int| 0 <= i < j < s.len() ==> !ranks_before(#[trigger] s[j], #[trigger] s[i])
}

proof fn lemma_insert_by_score(s: Seq<ResultView>, x: ResultView)
    requires
        in_score_order(s),
    ensures
        in_score_order(insert_by_score(s, x)),
        insert_by_score(s, x).to_multiset() == s.to_multiset().insert(x),
    decreases s.len(),
{
    broadcast use vstd::seq_lib::group_to_multiset_ensures;

    if s.len() > 0 && ranks_before(x, s.last()) {
        let init = s.drop_last();
        let last = s.last();
        assert(in_score_order(init)) by {
            assert forall|i: int, j: int| 0 <= i < j < init.len() implies !ranks_before(
                #[trigger] init[j],
                #[trigger] init[i],
            ) by {
                assert(init[i] == s[i] && init[j] == s[j]);
            }
        }
        lemma_insert_by_score(init, x);
        let r0 = insert_by_score(init, x);
        let r = r0.push(last);
        assert forall|i: int, j: int| 0 <= i < j < r.len() implies !ranks_before(#[trigger] r[j], #[trigger] r[i]) by {
            if j == r.len() - 1 {
                let e = r0[i];
                assert(r0.to_multiset().count(e) > 0);
                assert(init.to_multiset().insert(x).count(e) > 0);
                if e != x {
                    assert(init.to_multiset().count(e) > 0);
                    assert(init.contains(e));
                    let k = choose|k: int| 0 <= k < init.len() && init[k] == e;
                    assert(s[k] == e);
                    assert(s[s.len() - 1] == last);
                }
            } else {
                assert(r[i] == r0[i] && r[j] == r0[j]);
            }
        }
        assert(s =~= init.push(last));
        assert(r.to_multiset() =~= s.to_multiset().insert(x));
    } else {
        let r = s.push(x);
        assert forall|i: int, j: int| 0 <= i < j < r.len() implies !ranks_before(#[trigger] r[j], #[trigger] r[i]) by {
            if j == r.len() - 1 {
                if i < s.len() - 1 {
                    assert(!ranks_before(s[s.len() - 1], s[i]));
                }
            } else {
                assert(r[i] == s[i] && r[j] == s[j]);
            }
        }
        assert(r.to_multiset() =~= s.to_multiset().insert(x));
    }
}

/// Sorting by score puts the results in score order (scored ones first,
/// higher scores first) and keeps exactly the same results.
pub proof fn lemma_sort_by_score(s: Seq<ResultView>)
    ensures
        in_score_order(sort_by_score(s)),
        sort_by_score(s).to_multiset() == s.to_multiset(),
    decreases s.len(),
{
    broadcast use vstd::seq_lib::group_to_multiset_ensures;

    if s.len() > 0 {
        lemma_sort_by_score(s.drop_last());
        lemma_insert_by_score(sort_by_score(s.drop_last()), s.last());
        assert(s =~= s.drop_last().push(s.last()));
    }
}

/// The results of `s` whose score has rank `v`, in order.
pub open spec fn with_rank(s: Seq<ResultView>, v: int) -> Seq<ResultView>
    decreases s.len(),
{
    if s.len() == 0 {
        s
    } else if rank(s.last().2) == v {
        with_rank(s.drop_last(), v).push(s.last())
    } else {
        with_rank(s.drop_last(), v)
    }
}

proof fn lemma_insert_by_score_with_rank(t: Seq<ResultView>, x: ResultView, v: int)
    ensures
        with_rank(insert_by_score(t, x), v) == if rank(x.2) == v {
            with_rank(t, v).push(x)
        } else {
            with_rank(t, v)
        },
    decreases t.len(),
{
    if t.len() > 0 && ranks_before(x, t.last()) {
        let init = t.drop_last();
        lemma_insert_by_score_with_rank(init, x, v);
        let r = insert_by_score(init, x).push(t.last());
        assert(r.drop_last() =~= insert_by_score(init, x));
        assert(r.last() == t.last());
    } else {
        let r = t.push(x);
        assert(r.drop_last() =~= t);
    }
}

/// Sorting by score is stable: the results that share a score keep the
/// order in which they were found.
pub proof fn lemma_sort_by_score_stable(s: Seq<ResultView>, v: int)
    ensures
        with_rank(sort_by_score(s), v) == with_rank(s, v),
    decreases s.len(),
{
    if s.len() > 0 {
        lemma_sort_by_score_stable(s.drop_last(), v);
        lemma_insert_by_score_with_rank(sort_by_score(s.drop_last()), s.last(), v);
    }
}

/// Sorted fuzzy results come best first: a result with a score comes
/// before every result without one, and of two scored results the earlier
/// has the score at least as high.  Sorting keeps exactly the results.
pub proof fn lemma_sorted_results_best_first(s: Seq<ResultView>)
    ensures
        forall|i: int, j: int|
            #![trigger sort_by_score(s)[i], sort_by_score(s)[j]]
            0 <= i < j < sort_by_score(s).len() ==> (sort_by_score(s)[i].2 is None ==> sort_by_score(s)[j].2 is None)
                && (sort_by_score(s)[i].2 is Some && sort_by_score(s)[j].2 is Some ==> sort_by_score(s)[i].2->0
                >= sort_by_score(s)[j].2->0),
        sort_by_score(s).to_multiset() == s.to_multiset(),
{
    lemma_sort_by_score(s);
    let t = sort_by_score(s);
    assert forall|i: int, j: int|
        #![trigger t[i], t[j]]
        0 <= i < j < t.len() implies (t[i].2 is None ==> t[j].2 is None) && (t[i].2 is Some && t[j].2 is Some
            ==> t[i].2->0 >= t[j].2->0) by {
        assert(!ranks_before(t[j], t[i]));
        assert(rank(t[j].2) <= rank(t[i].2));
        match t[i].2 {
            Some(x) => {
                assert(rank(t[i].2) == x as int);
                match t[j].2 {
                    Some(y) => {
                        assert(rank(t[j].2) == y as int);
                    },
                    None => {},
                }
            },
            None => {
                assert(rank(t[i].2) == i64::MIN - 1);
                match t[j].2 {
                    Some(y) => {
                        assert(rank(t[j].2) == y as int);
                        assert(y >= i64::MIN);
                    },
                    None => {},
                }
            },
        }
    }
}

} // verus!
