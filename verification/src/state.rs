//! The application state that the tree logic reads and writes, and the
//! path texts shown for it.
use vstd::prelude::*;
use crate::paths::{file_name, opt_text, path_file_name};
use crate::config::BehaviorConfig;
use crate::tree::file_ops::TreeClipboard;

verus! {

/// The state of the tree pane and the status bar.  (The editor and dialog
/// buffers of the terminal framework are kept beside it by the program.)
pub struct State {
    pub sidebar_visible: bool,
    pub tree_root_path: String,
    pub show_files: bool,
    pub show_hidden: bool,
    pub follow_symlinks: bool,
    /// Pre-rendered tree lines for the tree pane.
    pub tree_render_lines: Option<Vec<String>>,
    pub tree_scroll_offset: usize,
    pub clipboard: Option<TreeClipboard>,
    /// Whether ".." is the selected entry of the tree.
    pub dotdot_selected: bool,
    /// Display string for the tree root (e.g. "~/repos/krust").
    pub tree_root_display: String,
    /// The open file's name, for the status bar.
    pub current_file_name: Option<String>,
    /// Whether the editor buffer changed since it was last saved.
    pub is_dirty: bool,
    /// Set when the sidebar is toggled, marking the layout switch; nothing
    /// reads it yet.
    pub eat_next_input: bool,
}

/// `Path::new(path).strip_prefix(base)` as text, `None` when `base` is not
/// a prefix of `path`'s components.
pub uninterp spec fn path_strip_prefix(path: Seq<char>, base: Seq<char>) -> Option<Seq<char>>;

/// `Path::new(path).extension()` as text.
pub uninterp spec fn path_extension(path: Seq<char>) -> Option<Seq<char>>;

/// Calls `std::path::Path::strip_prefix` and turns the rest into a `String`.
/// Trusted: the result is the value named `path_strip_prefix`.
#[verifier::external_body]
fn strip_prefix(path: &str, base: &str) -> (r: Option<String>)
    ensures
        opt_text(r) == path_strip_prefix(path@, base@),
{
    std::path::Path::new(path).strip_prefix(base).ok().and_then(|p| p.to_str()).map(|p| p.to_string())
}

/// Calls `std::path::Path::extension` and turns it into a `String`.
/// Trusted: the result is the value named `path_extension`.
#[verifier::external_body]
fn extension(path: &str) -> (r: Option<String>)
    ensures
        opt_text(r) == path_extension(path@),
{
    std::path::Path::new(path).extension().and_then(|e| e.to_str()).map(|e| e.to_string())
}

/// The display text of a path: under the home directory it is written
/// `~/` followed by the rest of the path.
pub open spec fn abbreviated(path: Seq<char>, home: Option<Seq<char>>) -> Seq<char> {
    match home {
        Some(h) => match path_strip_prefix(path, h) {
            Some(rest) => "~/"@ + rest,
            None => path,
        },
        None => path,
    }
}

/// Abbreviates a path, replacing the home directory `home` (when known)
/// with `~`.
pub fn abbreviate_path(path: &str, home: Option<&str>) -> (r: String)
    ensures
        r@ == abbreviated(path@, match home {
            Some(h) => Some(h@),
            None => None,
        }),
{
    match home {
        Some(h) => match strip_prefix(path, h) {
            Some(rest) => {
                let mut s = String::from_str("~/");
                s.append(rest.as_str());
                s
            },
            None => String::from_str(path),
        },
        None => String::from_str(path),
    }
}

/// The file extension used when a path has none.
pub fn default_file_extension() -> (r: &'static str)
    ensures
        r@ == "md"@,
{
    "md"
}

/// The syntax-highlighting extension for an optional file path: the
/// path's extension when it has a non-empty one, else `"md"`.
pub open spec fn file_extension_for(path: Option<Seq<char>>) -> Seq<char> {
    match path {
        Some(p) => match path_extension(p) {
            Some(e) => if e.len() > 0 { e } else { "md"@ },
            None => "md"@,
        },
        None => "md"@,
    }
}

/// The extension used to highlight a file.
pub fn get_file_extension(maybe_file_path: Option<&str>) -> (r: String)
    ensures
        r@ == file_extension_for(match maybe_file_path {
            Some(p) => Some(p@),
            None => None,
        }),
{
    match maybe_file_path {
        Some(file_path) => match extension(file_path) {
            Some(ext) => {
                if ext.as_str().unicode_len() > 0 {
                    ext
                } else {
                    String::from_str(default_file_extension())
                }
            },
            None => String::from_str(default_file_extension()),
        },
        None => String::from_str(default_file_extension()),
    }
}

/// The name shown for an open file: its final path component, or the given
/// fallback.
pub open spec fn display_file_name(path: Seq<char>, fallback: Seq<char>) -> Seq<char> {
    match path_file_name(path) {
        Some(n) => n,
        None => fallback,
    }
}

/// The file name of `path` for the status bar, or `fallback`.
pub fn file_display_name(path: &str, fallback: &str) -> (r: String)
    ensures
        r@ == display_file_name(path@, fallback@),
{
    match file_name(path) {
        Some(n) => n,
        None => String::from_str(fallback),
    }
}

impl State {
    /// The starting state for a tree rooted at `root_path`, showing it as
    /// `display`.
    pub open spec fn with_root_spec(root_path: String, display: String) -> State {
        State {
            sidebar_visible: false,
            tree_root_path: root_path,
            show_files: true,
            show_hidden: false,
            follow_symlinks: false,
            tree_render_lines: None,
            tree_scroll_offset: 0,
            clipboard: None,
            dotdot_selected: false,
            tree_root_display: display,
            current_file_name: None,
            is_dirty: false,
            eat_next_input: false,
        }
    }

    /// The starting state for a tree rooted at `root_path`: sidebar hidden,
    /// files shown, hidden files and symbolic links not, nothing rendered
    /// or selected yet.
    pub fn with_root(root_path: String, home: Option<&str>) -> (s: State)
        ensures
            s.tree_root_path == root_path,
            s.tree_root_display@ == abbreviated(root_path@, match home {
                Some(h) => Some(h@),
                None => None,
            }),
            !s.sidebar_visible,
            s.show_files,
            !s.show_hidden,
            !s.follow_symlinks,
            s.tree_render_lines is None,
            s.tree_scroll_offset == 0,
            s.clipboard is None,
            !s.dotdot_selected,
            s.current_file_name is None,
            !s.is_dirty,
            !s.eat_next_input,
    {
        let display = abbreviate_path(root_path.as_str(), home);
        State {
            sidebar_visible: false,
            tree_root_path: root_path,
            show_files: true,
            show_hidden: false,
            follow_symlinks: false,
            tree_render_lines: None,
            tree_scroll_offset: 0,
            clipboard: None,
            dotdot_selected: false,
            tree_root_display: display,
            current_file_name: None,
            is_dirty: false,
            eat_next_input: false,
        }
    }
}

/// The starting state of the program, opened on `maybe_file_path` (if
/// any) in the directory `current_dir`: the state rooted at that directory
/// with the two-column layout (tree beside the editor), hidden files and
/// symbolic links as the `[behavior]` settings say, and the file's name (or
/// the path itself when it has no final component) shown in the status bar.
pub fn new(
    maybe_file_path: Option<&str>,
    current_dir: String,
    home: Option<&str>,
    behavior: &BehaviorConfig,
) -> (s: State)
    ensures
        s == (State {
            sidebar_visible: true,
            show_hidden: behavior.show_hidden,
            follow_symlinks: behavior.follow_symlinks,
            current_file_name: s.current_file_name,
            ..State::with_root_spec(current_dir, s.tree_root_display)
        }),
        s.tree_root_display@ == abbreviated(current_dir@, match home {
            Some(h) => Some(h@),
            None => None,
        }),
        match maybe_file_path {
            Some(fp) => s.current_file_name matches Some(n) && n@ == display_file_name(fp@, fp@),
            None => s.current_file_name is None,
        },
{
    let mut state = State::with_root(current_dir, home);
    state.sidebar_visible = true;
    state.show_hidden = behavior.show_hidden;
    state.follow_symlinks = behavior.follow_symlinks;
    match maybe_file_path {
        Some(fp) => {
            state.current_file_name = Some(file_display_name(fp, fp));
        },
        None => {},
    }
    state
}

} // verus!
