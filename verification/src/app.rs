//! The application's signals and identifiers, the text lines of the tree
//! pane, and what each signal does to the tree and the state.
use vstd::prelude::*;
use crate::paths::{parent, path_parent};
use crate::text::{trim, trimmed};
use crate::state::{State, abbreviate_path, abbreviated, display_file_name, file_display_name};
use crate::tree::component::marks_selection;
use crate::tree::navigation::{
    DirListing, NavStep, Navigation, go_to_parent_outcome, moved_down, moved_up, opened_at, read_for,
    toggle_node_outcome, last_path_match, will_load, read_used,
};
use crate::tree::tree_node::{TreeNode, read_len};
use vstd::string::*;

verus! {

/// Signals that can be sent to the app.
#[derive(Clone, Debug)]
#[non_exhaustive]
pub enum AppSignal {
    SaveFile,
    AskForFilenameToSaveFile,
    OpenFile(String),
    ToggleSidebar,
    TreeMoveUp,
    TreeMoveDown,
    TreeExpand,
    TreeCollapse,
    TreeEnter,
    TreeGoToParent,
    MarkDirty,
    Noop,
}

impl Default for AppSignal {
    fn default() -> (r: AppSignal)
        ensures
            r is Noop,
    {
        AppSignal::Noop
    }
}

/// Identifiers of the components and styles.
#[derive(Clone, Copy, Debug, PartialEq, Eq)]
pub enum Id {
    Container,
    ComponentEditor,
    ComponentTree,
    ComponentSaveDialog,
    ComponentFocusDialog,
    StyleContainer,
    StyleEditorDefault,
    StyleTreeDefault,
    StyleDialogBorder,
    StyleDialogTitle,
    StyleDialogEditor,
    StyleDialogResultsPanel,
    StyleFocusDialogBorder,
    StyleFocusDialogTitle,
    StyleFocusDialogEditor,
    StyleFocusDialogResultsPanel,
}

/// The number of each identifier.
pub open spec fn id_number(id: Id) -> u8 {
    match id {
        Id::Container => 1,
        Id::ComponentEditor => 2,
        Id::ComponentTree => 3,
        Id::ComponentSaveDialog => 4,
        Id::ComponentFocusDialog => 5,
        Id::StyleContainer => 10,
        Id::StyleEditorDefault => 11,
        Id::StyleTreeDefault => 12,
        Id::StyleDialogBorder => 13,
        Id::StyleDialogTitle => 14,
        Id::StyleDialogEditor => 15,
        Id::StyleDialogResultsPanel => 16,
        Id::StyleFocusDialogBorder => 17,
        Id::StyleFocusDialogTitle => 18,
        Id::StyleFocusDialogEditor => 19,
        Id::StyleFocusDialogResultsPanel => 20,
    }
}

impl From<Id> for u8 {
    fn from(id: Id) -> (r: u8) {
        match id {
            Id::Container => 1,
            Id::ComponentEditor => 2,
            Id::ComponentTree => 3,
            Id::ComponentSaveDialog => 4,
            Id::ComponentFocusDialog => 5,
            Id::StyleContainer => 10,
            Id::StyleEditorDefault => 11,
            Id::StyleTreeDefault => 12,
            Id::StyleDialogBorder => 13,
            Id::StyleDialogTitle => 14,
            Id::StyleDialogEditor => 15,
            Id::StyleDialogResultsPanel => 16,
            Id::StyleFocusDialogBorder => 17,
            Id::StyleFocusDialogTitle => 18,
            Id::StyleFocusDialogEditor => 19,
            Id::StyleFocusDialogResultsPanel => 20,
        }
    }
}

impl vstd::std_specs::convert::FromSpecImpl<Id> for u8 {
    open spec fn obeys_from_spec() -> bool {
        true
    }

    open spec fn from_spec(id: Id) -> u8 {
        id_number(id)
    }
}

/// The selection marker at the start of a tree line.
pub open spec fn marker_text(selected: bool) -> Seq<char> {
    if selected { ">"@ } else { " "@ }
}

/// Two spaces per level of depth.
pub open spec fn indent_text(depth: nat) -> Seq<char> {
    Seq::new(2 * depth, |i: int| ' ')
}

/// The icon of a node: an open or closed folder, or a file.
pub open spec fn icon_text(n: TreeNode) -> Seq<char> {
    if n.is_dir {
        if n.is_expanded { "\u{f07c} "@ } else { "\u{f07b} "@ }
    } else {
        "\u{f15b} "@
    }
}

/// The line of a node in the tree pane.
pub open spec fn node_line(n: TreeNode, selected: bool) -> Seq<char> {
    marker_text(selected) + indent_text(n.depth as nat) + icon_text(n) + n.name@
}

/// The `..` line shown above the tree when its root has a parent.
pub open spec fn dotdot_line(selected: bool) -> Seq<char> {
    marker_text(selected) + "\u{f07b}  .."@
}

/// Whether the tree's root has a parent directory.
pub open spec fn root_has_parent(nav: Navigation) -> bool {
    path_parent(nav.nodes@[nav.root as int].path@) is Some
}

/// The lines of the tree pane: the `..` line when the root has a parent,
/// then one line per visible node, the selected one marked unless `..` is.
pub open spec fn tree_lines(nav: Navigation, dotdot_selected: bool) -> Seq<Seq<char>> {
    (if root_has_parent(nav) { seq![dotdot_line(dotdot_selected)] } else { seq![] }) + Seq::new(
        nav.flat_list@.len(),
        |i: int|
            node_line(
                nav.nodes@[nav.flat_list@[i] as int],
                !dotdot_selected && i == nav.selected,
            ),
    )
}

/// The text of a list of lines.
pub open spec fn lines_text(v: Seq<String>) -> Seq<Seq<char>> {
    v.map_values(|l: String| l@)
}

fn marker(selected: bool) -> (r: &'static str)
    ensures
        r@ == marker_text(selected),
{
    if selected { ">" } else { " " }
}

/// The line of one node.
fn node_line_string(n: &TreeNode, selected: bool) -> (r: String)
    ensures
        r@ == node_line(*n, selected),
{
    let mut line = String::from_str(marker(selected));
    let mut d: usize = 0;
    while d < n.depth
        invariant
            d <= n.depth,
            line@ == marker_text(selected) + indent_text(d as nat),
        decreases n.depth - d,
    {
        line.append("  ");
        proof {
            reveal_strlit("  ");
            assert(indent_text((d + 1) as nat) =~= indent_text(d as nat) + "  "@);
            assert(line@ =~= marker_text(selected) + indent_text((d + 1) as nat));
        }
        d = d + 1;
    }
    if n.is_dir {
        if n.is_expanded {
            line.append("\u{f07c} ");
        } else {
            line.append("\u{f07b} ");
        }
    } else {
        line.append("\u{f15b} ");
    }
    line.append(n.name.as_str());
    line
}

impl AppMain {
    /// Whether the navigation's root has a parent directory (so `..` is shown).
    pub fn has_dotdot(nav: &Navigation) -> (r: bool)
        requires
            nav.wf(),
        ensures
            r == root_has_parent(*nav),
    {
        proof {
            crate::tree::navigation::lemma_flat_list_in_arena(nav);
        }
        parent(nav.nodes[nav.root].path.as_str()).is_some()
    }

    /// Builds the lines of the tree pane from the navigation state.
    pub fn build_tree_render_lines(nav: &Navigation, dotdot_selected: bool) -> (lines: Vec<String>)
        requires
            nav.wf(),
        ensures
            lines_text(lines@) == tree_lines(*nav, dotdot_selected),
    {
        proof {
            crate::tree::navigation::lemma_flat_list_in_arena(nav);
        }
        let mut lines: Vec<String> = Vec::new();
        let has_parent = Self::has_dotdot(nav);
        if has_parent {
            let mut l = String::from_str(marker(dotdot_selected));
            l.append("\u{f07b}  ..");
            lines.push(l);
        }
        let ghost head = lines_text(lines@);
        let ghost body = Seq::new(
            nav.flat_list@.len(),
            |i: int| node_line(nav.nodes@[nav.flat_list@[i] as int], !dotdot_selected && i == nav.selected),
        );
        let mut idx: usize = 0;
        while idx < nav.flat_list.len()
            invariant
                nav.wf(),
                crate::tree::navigation::flat_in_arena(nav.nodes@, nav.flat_list@),
                idx <= nav.flat_list@.len(),
                head == (if root_has_parent(*nav) { seq![dotdot_line(dotdot_selected)] } else { Seq::<Seq<char>>::empty() }),
                body == Seq::new(
                    nav.flat_list@.len(),
                    |i: int| node_line(nav.nodes@[nav.flat_list@[i] as int], !dotdot_selected && i == nav.selected),
                ),
                lines_text(lines@) == head + body.take(idx as int),
            decreases nav.flat_list@.len() - idx,
        {
            let x = nav.flat_list[idx];
            let is_selected = !dotdot_selected && idx == nav.selected;
            let line = node_line_string(&nav.nodes[x], is_selected);
            let ghost before = lines@;
            lines.push(line);
            proof {
                assert(body.take(idx + 1) =~= body.take(idx as int).push(body[idx as int]));
                assert(lines_text(lines@) =~= lines_text(before).push(line@));
            }
            idx = idx + 1;
        }
        proof {
            assert(body.take(nav.flat_list@.len() as int) =~= body);
        }
        lines
    }
}

/// What handling a signal asks of the program around the library.
pub struct SignalEffect {
    /// A signal to send next.
    pub send: Option<AppSignal>,
    /// Move the focus to the editor.
    pub focus_editor: bool,
    /// Drop the saved offscreen buffer, so that the next paint is a full one.
    pub repaint_all: bool,
    /// Open the modal dialog that asks for a file name to save to.
    pub ask_file_name: bool,
    /// Save the editor buffer.
    pub save_buffer: bool,
    /// Load this file into the editor.
    pub load_file: Option<String>,
}

/// The outcome of handling a signal.
pub enum SignalStep {
    /// The signal needs the contents of this directory; the state is as it
    /// was.  Read it, add it to the reads and handle the signal again.
    NeedRead(String),
    /// The signal was handled.
    Done(SignalEffect),
}

/// An effect that asks nothing.
pub open spec fn quiet(e: SignalEffect) -> bool {
    &&& e.send is None
    &&& !e.focus_editor
    &&& !e.repaint_all
    &&& !e.ask_file_name
    &&& !e.save_buffer
    &&& e.load_file is None
}

/// The step is `Done` with an effect that asks nothing.
pub open spec fn done_quietly(r: SignalStep) -> bool {
    r matches SignalStep::Done(e) && quiet(e)
}

/// The step is `Done` and asks only that `sig` be sent next.
pub open spec fn sends_only(r: SignalStep, sig: AppSignal) -> bool {
    r matches SignalStep::Done(e) && e == SignalEffect { send: Some(sig), ..e } && quiet(
        SignalEffect { send: None, ..e },
    )
}

/// The state shows the tree lines of `nav` (with `..` selected or not).
pub open spec fn shows_lines(s: State, nav: Navigation, dotdot_selected: bool) -> bool {
    s.tree_render_lines matches Some(v) && lines_text(v@) == tree_lines(nav, dotdot_selected)
}

/// `s1` is `s0` with new tree lines, which are those of `nav`.
pub open spec fn relined(s0: State, s1: State, nav: Navigation, dotdot_selected: bool) -> bool {
    &&& s1 == State { tree_render_lines: s1.tree_render_lines, dotdot_selected, ..s0 }
    &&& shows_lines(s1, nav, dotdot_selected)
}

/// The node under the selection, if the selection is on a visible entry.
pub open spec fn selected_node(nav: Navigation) -> Option<TreeNode> {
    if nav.selected < nav.flat_list@.len() {
        Some(nav.nodes@[nav.flat_list@[nav.selected as int] as int])
    } else {
        None
    }
}

/// Whether handling `sig` in state `s` works on the tree (which is then
/// opened first, if it is not open yet).
pub open spec fn needs_navigation(sig: AppSignal, s: State) -> bool {
    match sig {
        AppSignal::ToggleSidebar => !s.sidebar_visible,
        AppSignal::TreeMoveUp => true,
        AppSignal::TreeMoveDown => true,
        AppSignal::TreeExpand => !s.dotdot_selected,
        AppSignal::TreeCollapse => !s.dotdot_selected,
        AppSignal::TreeEnter => !s.dotdot_selected,
        AppSignal::TreeGoToParent => true,
        _ => false,
    }
}

/// The tree cannot be opened at the state's root because the arena cannot
/// hold the root's entries.
pub open spec fn root_too_large(s: State, reads: Seq<DirListing>) -> bool {
    read_for(reads, s.tree_root_path@) matches Some(i) && 1 + read_len(reads[i].read) > usize::MAX
}

/// The step answers a navigation step that needed a read with the same
/// directory, and is otherwise `Done` asking nothing.
pub open spec fn follows<T>(r: SignalStep, t: NavStep<T>) -> bool {
    match t {
        NavStep::NeedRead(d) => r matches SignalStep::NeedRead(d2) && d2@ == d@,
        _ => done_quietly(r),
    }
}

/// Toggling the selected directory of `nav` (opening it when `opening`,
/// closing it otherwise) with `t` the answer of `toggle_node`.
pub open spec fn toggled_selection(
    nav: Navigation,
    n1: Option<Navigation>,
    s0: State,
    s1: State,
    reads: Seq<DirListing>,
    r: SignalStep,
) -> bool {
    exists|nav1: Navigation, t: NavStep<Option<String>>|
        #[trigger] toggle_node_outcome(nav, nav1, selected_node(nav)->0.path@, s0.show_files, reads, t)
            && n1 == Some(nav1) && follows(r, t) && if t is NeedRead {
            s1 == s0
        } else {
            relined(s0, s1, nav1, s0.dotdot_selected)
        }
}

/// What handling `sig` does, from the navigation `n0` (already opened when
/// the signal works on the tree) and the state `s0` to `n1`, `s1` and the
/// answer `r`.  `home` is the home directory, used to abbreviate the root.
pub open spec fn signal_applied(
    n0: Option<Navigation>,
    n1: Option<Navigation>,
    s0: State,
    s1: State,
    sig: AppSignal,
    home: Option<Seq<char>>,
    reads: Seq<DirListing>,
    r: SignalStep,
) -> bool {
    let dd = s0.dotdot_selected;
    match sig {
        AppSignal::ToggleSidebar => {
            &&& n1 == n0
            &&& if s0.sidebar_visible {
                &&& s1 == State { sidebar_visible: false, eat_next_input: true, ..s0 }
                &&& r matches SignalStep::Done(e) && e.focus_editor && e.repaint_all && quiet(
                    SignalEffect { focus_editor: false, repaint_all: false, ..e },
                )
            } else {
                &&& r matches SignalStep::Done(e) && e.repaint_all && quiet(
                    SignalEffect { repaint_all: false, ..e },
                )
                &&& match n0 {
                    None => s1 == State { sidebar_visible: true, eat_next_input: true, ..s0 },
                    Some(nav) => {
                        &&& s1 == State {
                            sidebar_visible: true,
                            eat_next_input: true,
                            tree_scroll_offset: 0,
                            tree_render_lines: s1.tree_render_lines,
                            tree_root_display: s1.tree_root_display,
                            ..s0
                        }
                        &&& shows_lines(s1, nav, dd)
                        &&& s1.tree_root_display@ == abbreviated(nav.nodes@[0].path@, home)
                    },
                }
            }
        },
        AppSignal::TreeMoveUp => {
            &&& done_quietly(r)
            &&& match n0 {
                None => n1 == n0 && s1 == s0,
                Some(nav) => if dd {
                    n1 == n0 && relined(s0, s1, nav, true)
                } else if nav.selected == 0 && root_has_parent(nav) {
                    n1 == n0 && relined(s0, s1, nav, true)
                } else {
                    n1 == Some(moved_up(nav)) && relined(s0, s1, moved_up(nav), false)
                },
            }
        },
        AppSignal::TreeMoveDown => {
            &&& done_quietly(r)
            &&& match n0 {
                None => n1 == n0 && s1 == State { dotdot_selected: false, ..s0 },
                Some(nav) => if dd {
                    n1 == n0 && relined(s0, s1, nav, false)
                } else {
                    n1 == Some(moved_down(nav)) && relined(s0, s1, moved_down(nav), false)
                },
            }
        },
        AppSignal::TreeExpand => if dd {
            n1 == n0 && s1 == s0 && sends_only(r, AppSignal::TreeGoToParent)
        } else {
            match n0 {
                Some(nav) if selected_node(nav) matches Some(node) && node.is_dir && !node.is_expanded =>
                    toggled_selection(nav, n1, s0, s1, reads, r),
                _ => n1 == n0 && s1 == s0 && done_quietly(r),
            }
        },
        AppSignal::TreeCollapse => if dd {
            n1 == n0 && s1 == s0 && done_quietly(r)
        } else {
            match n0 {
                Some(nav) if selected_node(nav) matches Some(node) && node.is_expanded =>
                    toggled_selection(nav, n1, s0, s1, reads, r),
                _ => n1 == n0 && s1 == s0 && done_quietly(r),
            }
        },
        AppSignal::TreeEnter => if dd {
            n1 == n0 && s1 == s0 && sends_only(r, AppSignal::TreeGoToParent)
        } else {
            match n0 {
                Some(nav) if selected_node(nav) is Some => if selected_node(nav)->0.is_dir {
                    toggled_selection(nav, n1, s0, s1, reads, r)
                } else {
                    &&& n1 == n0
                    &&& s1 == s0
                    &&& match r {
                        SignalStep::Done(e) => match e.send {
                            Some(AppSignal::OpenFile(p)) => p@ == selected_node(nav)->0.path@ && quiet(
                                SignalEffect { send: None, ..e },
                            ),
                            _ => false,
                        },
                        _ => false,
                    }
                },
                _ => n1 == n0 && s1 == s0 && done_quietly(r),
            }
        },
        AppSignal::TreeGoToParent => match n0 {
            None => n1 == n0 && s1 == State { dotdot_selected: false, ..s0 } && done_quietly(r),
            Some(nav) => exists|nav1: Navigation, t: NavStep<()>|
                #[trigger] go_to_parent_outcome(nav, nav1, s0.show_files, reads, t) && n1 == Some(nav1)
                    && follows(r, t) && if t is NeedRead {
                    s1 == s0
                } else {
                    &&& s1 == State { tree_root_display: s1.tree_root_display, tree_render_lines: s1.tree_render_lines, dotdot_selected: false, ..s0 }
                    &&& shows_lines(s1, nav1, false)
                    &&& s1.tree_root_display@ == abbreviated(nav1.nodes@[0].path@, home)
                },
        },
        AppSignal::OpenFile(p) => {
            &&& n1 == n0
            &&& s1 == State { current_file_name: s1.current_file_name, is_dirty: false, ..s0 }
            &&& s1.current_file_name matches Some(name) && name@ == display_file_name(p@, "untitled"@)
            &&& match r {
                SignalStep::Done(e) => match e.load_file {
                    Some(f) => f@ == p@ && e.focus_editor && quiet(
                        SignalEffect { focus_editor: false, load_file: None, ..e },
                    ),
                    None => false,
                },
                _ => false,
            }
        },
        AppSignal::SaveFile => {
            &&& n1 == n0
            &&& s1 == s0
            &&& r matches SignalStep::Done(e) && e.save_buffer && quiet(SignalEffect { save_buffer: false, ..e })
        },
        AppSignal::AskForFilenameToSaveFile => {
            &&& n1 == n0
            &&& s1 == s0
            &&& r matches SignalStep::Done(e) && e.ask_file_name && quiet(
                SignalEffect { ask_file_name: false, ..e },
            )
        },
        AppSignal::MarkDirty => n1 == n0 && s1 == State { is_dirty: true, ..s0 } && done_quietly(r),
        AppSignal::Noop => n1 == n0 && s1 == s0 && done_quietly(r),
    }
}

/// The text of an optional home directory.
pub open spec fn home_text(home: Option<&str>) -> Option<Seq<char>> {
    match home {
        Some(h) => Some(h@),
        None => None,
    }
}

/// A navigation opened at the state's root with the state's settings, or,
/// when there is none, the root was too large to open.
pub open spec fn opened_or_too_large(n: Option<Navigation>, s: State, reads: Seq<DirListing>) -> bool {
    match n {
        Some(nav) => opened_at(nav, s.tree_root_path@, s.show_files, s.show_hidden, s.follow_symlinks, reads),
        None => root_too_large(s, reads),
    }
}

/// What handling `sig` does from the navigation `n_old` and state `s0`: a
/// signal that works on the tree first opens it when it is not open (and
/// asks for the root's contents when they are not among the reads); then
/// the signal is applied.
pub open spec fn signal_handled(
    n_old: Option<Navigation>,
    n1: Option<Navigation>,
    s0: State,
    s1: State,
    sig: AppSignal,
    home: Option<Seq<char>>,
    reads: Seq<DirListing>,
    r: SignalStep,
) -> bool {
    if needs_navigation(sig, s0) && n_old is None {
        if read_for(reads, s0.tree_root_path@) is None {
            &&& r matches SignalStep::NeedRead(d) && d@ == s0.tree_root_path@
            &&& n1 is None
            &&& s1 == s0
        } else {
            exists|n0: Option<Navigation>|
                #[trigger] opened_or_too_large(n0, s0, reads) && signal_applied(n0, n1, s0, s1, sig, home, reads, r)
        }
    } else {
        signal_applied(n_old, n1, s0, s1, sig, home, reads, r)
    }
}

/// The application: the tree navigation, opened on first use.
pub struct AppMain {
    pub navigation: Option<Navigation>,
}

impl Default for AppMain {
    fn default() -> (a: AppMain)
        ensures
            a.navigation is None,
    {
        AppMain { navigation: None }
    }
}

fn no_effect() -> (e: SignalEffect)
    ensures
        quiet(e),
{
    SignalEffect {
        send: None,
        focus_editor: false,
        repaint_all: false,
        ask_file_name: false,
        save_buffer: false,
        load_file: None,
    }
}

impl AppMain {
    /// The navigation, when open, is well formed.
    pub open spec fn wf(&self) -> bool {
        self.navigation matches Some(nav) ==> nav.wf()
    }

    /// Opens the tree at the state's root if it is not open yet.  Answers
    /// the root's path when its contents are not among the reads.
    fn ensure_navigation(&mut self, state: &State, reads: &Vec<DirListing>) -> (r: Option<String>)
        requires
            old(self).wf(),
        ensures
            final(self).wf(),
            old(self).navigation is Some ==> r is None && *final(self) == *old(self),
            old(self).navigation is None ==> {
                &&& (r is Some <==> read_for(reads@, state.tree_root_path@) is None)
                &&& (r matches Some(d) ==> d@ == state.tree_root_path@ && final(self).navigation is None)
                &&& (r is None ==> opened_or_too_large(final(self).navigation, *state, reads@))
            },
    {
        if self.navigation.is_none() {
            match Navigation::new(
                state.tree_root_path.clone(),
                state.show_files,
                state.show_hidden,
                state.follow_symlinks,
                reads,
            ) {
                NavStep::NeedRead(d) => {
                    return Some(d);
                },
                NavStep::ArenaFull => {},
                NavStep::Done(nav) => {
                    self.navigation = Some(nav);
                },
            }
        }
        None
    }

    fn toggle_sidebar(&mut self, state: &mut State, home: Option<&str>, reads: &Vec<DirListing>) -> (r: SignalStep)
        requires
            old(self).wf(),
        ensures
            final(self).wf(),
            signal_applied(
                old(self).navigation,
                final(self).navigation,
                *old(state),
                *final(state),
                AppSignal::ToggleSidebar,
                home_text(home),
                reads@,
                r,
            ),
    {
        state.sidebar_visible = !state.sidebar_visible;
        state.eat_next_input = true;
        let mut e = no_effect();
        e.repaint_all = true;
        if state.sidebar_visible {
            match &self.navigation {
                Some(nav) => {
                    proof {
                        crate::tree::navigation::lemma_flat_list_in_arena(nav);
                    }
                    state.tree_root_display = abbreviate_path(nav.nodes[0].path.as_str(), home);
                    state.tree_render_lines = Some(Self::build_tree_render_lines(nav, state.dotdot_selected));
                    state.tree_scroll_offset = 0;
                },
                None => {},
            }
        } else {
            e.focus_editor = true;
        }
        SignalStep::Done(e)
    }

    fn tree_move_up(&mut self, state: &mut State, reads: &Vec<DirListing>) -> (r: SignalStep)
        requires
            old(self).wf(),
        ensures
            final(self).wf(),
            signal_applied(
                old(self).navigation,
                final(self).navigation,
                *old(state),
                *final(state),
                AppSignal::TreeMoveUp,
                None,
                reads@,
                r,
            ),
    {
        match &mut self.navigation {
            None => {},
            Some(nav) => {
                if !state.dotdot_selected {
                    if nav.selected == 0 && Self::has_dotdot(nav) {
                        state.dotdot_selected = true;
                    } else {
                        nav.move_up();
                    }
                }
                state.tree_render_lines = Some(Self::build_tree_render_lines(nav, state.dotdot_selected));
            },
        }
        SignalStep::Done(no_effect())
    }

    fn tree_move_down(&mut self, state: &mut State, reads: &Vec<DirListing>) -> (r: SignalStep)
        requires
            old(self).wf(),
        ensures
            final(self).wf(),
            signal_applied(
                old(self).navigation,
                final(self).navigation,
                *old(state),
                *final(state),
                AppSignal::TreeMoveDown,
                None,
                reads@,
                r,
            ),
    {
        if state.dotdot_selected {
            state.dotdot_selected = false;
        } else {
            match &mut self.navigation {
                None => {},
                Some(nav) => {
                    nav.move_down();
                },
            }
        }
        match &self.navigation {
            None => {},
            Some(nav) => {
                state.tree_render_lines = Some(Self::build_tree_render_lines(nav, state.dotdot_selected));
            },
        }
        SignalStep::Done(no_effect())
    }

    /// Toggles the selected node, which exists.
    fn toggle_selected(&mut self, state: &mut State, reads: &Vec<DirListing>) -> (r: SignalStep)
        requires
            old(self).wf(),
            old(self).navigation matches Some(nav) && selected_node(nav) is Some,
        ensures
            final(self).wf(),
            toggled_selection(
                old(self).navigation->0,
                final(self).navigation,
                *old(state),
                *final(state),
                reads@,
                r,
            ),
    {
        let ghost nav0 = self.navigation->0;
        match &mut self.navigation {
            None => SignalStep::Done(no_effect()),
            Some(nav) => {
                let path = match nav.get_selected_node() {
                    Some(node) => node.path.clone(),
                    None => String::new(),
                };
                let t = nav.toggle_node(path.as_str(), state.show_files, reads);
                let ghost tt = t;
                let ghost nav1 = *nav;
                assert(toggle_node_outcome(nav0, nav1, selected_node(nav0)->0.path@, state.show_files, reads@, tt));
                match t {
                    NavStep::NeedRead(d) => SignalStep::NeedRead(d),
                    _ => {
                        state.tree_render_lines = Some(Self::build_tree_render_lines(nav, state.dotdot_selected));
                        SignalStep::Done(no_effect())
                    },
                }
            },
        }
    }

    fn tree_expand(&mut self, state: &mut State, reads: &Vec<DirListing>) -> (r: SignalStep)
        requires
            old(self).wf(),
        ensures
            final(self).wf(),
            signal_applied(
                old(self).navigation,
                final(self).navigation,
                *old(state),
                *final(state),
                AppSignal::TreeExpand,
                None,
                reads@,
                r,
            ),
    {
        if state.dotdot_selected {
            let mut e = no_effect();
            e.send = Some(AppSignal::TreeGoToParent);
            return SignalStep::Done(e);
        }
        let closed_dir = match &self.navigation {
            Some(nav) => match nav.get_selected_node() {
                Some(node) => node.is_dir && !node.is_expanded,
                None => false,
            },
            None => false,
        };
        if closed_dir {
            self.toggle_selected(state, reads)
        } else {
            SignalStep::Done(no_effect())
        }
    }

    fn tree_collapse(&mut self, state: &mut State, reads: &Vec<DirListing>) -> (r: SignalStep)
        requires
            old(self).wf(),
        ensures
            final(self).wf(),
            signal_applied(
                old(self).navigation,
                final(self).navigation,
                *old(state),
                *final(state),
                AppSignal::TreeCollapse,
                None,
                reads@,
                r,
            ),
    {
        if state.dotdot_selected {
            return SignalStep::Done(no_effect());
        }
        let open_node = match &self.navigation {
            Some(nav) => match nav.get_selected_node() {
                Some(node) => node.is_expanded,
                None => false,
            },
            None => false,
        };
        if open_node {
            self.toggle_selected(state, reads)
        } else {
            SignalStep::Done(no_effect())
        }
    }

    fn tree_enter(&mut self, state: &mut State, reads: &Vec<DirListing>) -> (r: SignalStep)
        requires
            old(self).wf(),
        ensures
            final(self).wf(),
            signal_applied(
                old(self).navigation,
                final(self).navigation,
                *old(state),
                *final(state),
                AppSignal::TreeEnter,
                None,
                reads@,
                r,
            ),
    {
        if state.dotdot_selected {
            let mut e = no_effect();
            e.send = Some(AppSignal::TreeGoToParent);
            return SignalStep::Done(e);
        }
        let selected: Option<(bool, String)> = match &self.navigation {
            Some(nav) => match nav.get_selected_node() {
                Some(node) => Some((node.is_dir, node.path.clone())),
                None => None,
            },
            None => None,
        };
        match selected {
            None => SignalStep::Done(no_effect()),
            Some((is_dir, path)) => {
                if is_dir {
                    self.toggle_selected(state, reads)
                } else {
                    let mut e = no_effect();
                    e.send = Some(AppSignal::OpenFile(path));
                    SignalStep::Done(e)
                }
            },
        }
    }

    fn tree_go_to_parent(&mut self, state: &mut State, home: Option<&str>, reads: &Vec<DirListing>) -> (r:
        SignalStep)
        requires
            old(self).wf(),
        ensures
            final(self).wf(),
            signal_applied(
                old(self).navigation,
                final(self).navigation,
                *old(state),
                *final(state),
                AppSignal::TreeGoToParent,
                home_text(home),
                reads@,
                r,
            ),
    {
        let ghost n0 = self.navigation;
        match &mut self.navigation {
            None => {
                state.dotdot_selected = false;
                SignalStep::Done(no_effect())
            },
            Some(nav) => {
                let t = nav.go_to_parent(state.show_files, reads);
                let ghost tt = t;
                let ghost nav1 = *nav;
                assert(go_to_parent_outcome(n0->0, nav1, state.show_files, reads@, tt));
                match t {
                    NavStep::NeedRead(d) => SignalStep::NeedRead(d),
                    _ => {
                        proof {
                            crate::tree::navigation::lemma_flat_list_in_arena(nav);
                        }
                        state.dotdot_selected = false;
                        state.tree_render_lines = Some(Self::build_tree_render_lines(nav, false));
                        state.tree_root_display = abbreviate_path(nav.nodes[0].path.as_str(), home);
                        SignalStep::Done(no_effect())
                    },
                }
            },
        }
    }

    /// Handles a signal: updates the tree and the state, and says what the
    /// program must do next.  A signal that works on the tree opens it at
    /// the state's root on first use.  When a directory's contents are
    /// needed and not among `reads`, the answer is `NeedRead` with the
    /// state unchanged.  `home` is the home directory, used to abbreviate
    /// the root shown above the tree.
    pub fn app_handle_signal(
        &mut self,
        action: &AppSignal,
        state: &mut State,
        home: Option<&str>,
        reads: &Vec<DirListing>,
    ) -> (r: SignalStep)
        requires
            old(self).wf(),
        ensures
            final(self).wf(),
            signal_handled(
                old(self).navigation,
                final(self).navigation,
                *old(state),
                *final(state),
                *action,
                home_text(home),
                reads@,
                r,
            ),
    {
        let needs = match action {
            AppSignal::ToggleSidebar => !state.sidebar_visible,
            AppSignal::TreeMoveUp => true,
            AppSignal::TreeMoveDown => true,
            AppSignal::TreeExpand => !state.dotdot_selected,
            AppSignal::TreeCollapse => !state.dotdot_selected,
            AppSignal::TreeEnter => !state.dotdot_selected,
            AppSignal::TreeGoToParent => true,
            _ => false,
        };
        let ghost n_old = self.navigation;
        if needs {
            match self.ensure_navigation(state, reads) {
                Some(d) => {
                    return SignalStep::NeedRead(d);
                },
                None => {},
            }
        }
        let ghost n0 = self.navigation;
        let ghost s0 = *state;
        let r = match action {
            AppSignal::ToggleSidebar => self.toggle_sidebar(state, home, reads),
            AppSignal::TreeMoveUp => self.tree_move_up(state, reads),
            AppSignal::TreeMoveDown => self.tree_move_down(state, reads),
            AppSignal::TreeExpand => self.tree_expand(state, reads),
            AppSignal::TreeCollapse => self.tree_collapse(state, reads),
            AppSignal::TreeEnter => self.tree_enter(state, reads),
            AppSignal::TreeGoToParent => self.tree_go_to_parent(state, home, reads),
            AppSignal::OpenFile(path) => {
                state.current_file_name = Some(file_display_name(path.as_str(), "untitled"));
                state.is_dirty = false;
                let mut e = no_effect();
                e.focus_editor = true;
                e.load_file = Some(path.clone());
                SignalStep::Done(e)
            },
            AppSignal::SaveFile => {
                let mut e = no_effect();
                e.save_buffer = true;
                SignalStep::Done(e)
            },
            AppSignal::AskForFilenameToSaveFile => {
                let mut e = no_effect();
                e.ask_file_name = true;
                SignalStep::Done(e)
            },
            AppSignal::MarkDirty => {
                state.is_dirty = true;
                SignalStep::Done(no_effect())
            },
            AppSignal::Noop => SignalStep::Done(no_effect()),
        };
        proof {
            assert(signal_applied(n0, self.navigation, s0, *state, *action, home_text(home), reads@, r));
            if needs && n_old is None {
                assert(opened_or_too_large(n0, s0, reads@));
            }
        }
        r
    }

    /// Before the screen is drawn: when the state has no tree lines yet,
    /// opens the tree if needed and renders its lines.  Answers the root's
    /// path when its contents are needed and not among `reads` (nothing
    /// changes then).
    pub fn prepare_render(&mut self, state: &mut State, reads: &Vec<DirListing>) -> (r: Option<String>)
        requires
            old(self).wf(),
        ensures
            final(self).wf(),
            old(state).tree_render_lines is Some ==> r is None && *final(self) == *old(self) && *final(state)
                == *old(state),
            old(state).tree_render_lines is None ==> if old(self).navigation is None && read_for(
                reads@,
                old(state).tree_root_path@,
            ) is None {
                &&& r matches Some(d) && d@ == old(state).tree_root_path@
                &&& *final(self) == *old(self)
                &&& *final(state) == *old(state)
            } else {
                &&& r is None
                &&& (old(self).navigation is Some ==> final(self).navigation == old(self).navigation)
                &&& (old(self).navigation is None ==> opened_or_too_large(
                    final(self).navigation,
                    *old(state),
                    reads@,
                ))
                &&& match final(self).navigation {
                    Some(nav) => relined(*old(state), *final(state), nav, old(state).dotdot_selected),
                    None => *final(state) == *old(state),
                }
            },
    {
        if state.tree_render_lines.is_none() {
            match self.ensure_navigation(state, reads) {
                Some(d) => {
                    return Some(d);
                },
                None => {},
            }
            match &self.navigation {
                Some(nav) => {
                    state.tree_render_lines = Some(Self::build_tree_render_lines(nav, state.dotdot_selected));
                },
                None => {},
            }
        }
        None
    }
}

/// What a key pressed in the application (outside any component) does.
pub enum InputOutcome {
    /// Send this signal; the key is consumed.
    Send(AppSignal),
    /// Give the focus to the tree; the key is consumed and the screen redrawn.
    FocusTree,
    /// Give the focus to the editor; the key is consumed and the screen redrawn.
    FocusEditor,
    /// The key is consumed and nothing else happens.
    Consumed,
    /// Hand the key to the focused component.
    Route,
}

/// The application's own keys.  `ctrl_key` is the character of a key
/// pressed with Ctrl alone (`None` for any other key): Ctrl-T toggles the
/// sidebar, Ctrl-S saves, Ctrl-F focuses the tree when the sidebar is
/// shown, Ctrl-E focuses the editor; other keys go to the focused
/// component.
pub fn app_handle_input_event(ctrl_key: Option<char>, sidebar_visible: bool) -> (r: InputOutcome)
    ensures
        r == match ctrl_key {
            Some('t') => InputOutcome::Send(AppSignal::ToggleSidebar),
            Some('s') => InputOutcome::Send(AppSignal::SaveFile),
            Some('f') => if sidebar_visible {
                InputOutcome::FocusTree
            } else {
                InputOutcome::Consumed
            },
            Some('e') => InputOutcome::FocusEditor,
            _ => InputOutcome::Route,
        },
{
    match ctrl_key {
        Some('t') => InputOutcome::Send(AppSignal::ToggleSidebar),
        Some('s') => InputOutcome::Send(AppSignal::SaveFile),
        Some('f') => if sidebar_visible {
            InputOutcome::FocusTree
        } else {
            InputOutcome::Consumed
        },
        Some('e') => InputOutcome::FocusEditor,
        _ => InputOutcome::Route,
    }
}

/// What saving the editor buffer does.
pub enum SaveAction {
    /// Write the buffer's text to this file.
    Write(String),
    /// Ask for a file name first.
    AskFileName,
    /// Nothing to do.
    Nothing,
}

/// The save decision: with an editor buffer, a buffer that has a file is
/// written to it; one without a file asks for a name unless it is empty.
pub fn save_action(has_buffer: bool, file_path: Option<String>, buffer_empty: bool) -> (r: SaveAction)
    ensures
        !has_buffer ==> r is Nothing,
        has_buffer ==> match file_path {
            Some(p) => r matches SaveAction::Write(q) && q == p,
            None => if buffer_empty {
                r is Nothing
            } else {
                r is AskFileName
            },
        },
{
    if !has_buffer {
        return SaveAction::Nothing;
    }
    match file_path {
        Some(p) => SaveAction::Write(p),
        None => if buffer_empty {
            SaveAction::Nothing
        } else {
            SaveAction::AskFileName
        },
    }
}

/// The state after a save was tried: a buffer written to its file is no
/// longer dirty; when the write failed (or nothing was written) the dirty
/// flag stays as it was.
pub fn finish_save(state: &mut State, written: bool)
    ensures
        *final(state) == (State { is_dirty: old(state).is_dirty && !written, ..*old(state) }),
{
    if written {
        state.is_dirty = false;
    }
}

/// The widths, in percent of the window, of the tree pane and the editor
/// in the two-column layout: the tree takes the configured
/// `sidebar_width` (at most the whole window), the editor the rest.
pub fn pane_widths(sidebar_width: u8) -> (r: (u8, u8))
    ensures
        r.0 == if sidebar_width <= 100 { sidebar_width } else { 100u8 },
        r.0 + r.1 == 100,
{
    let tree: u8 = if sidebar_width <= 100 { sidebar_width } else { 100 };
    (tree, 100 - tree)
}

/// The file label of the status bar: the file's name (or `untitled`) in
/// brackets, after a `~` when the buffer has unsaved changes.
pub open spec fn file_label_text(name: Option<Seq<char>>, is_dirty: bool) -> Seq<char> {
    (if is_dirty { "~["@ } else { "["@ }) + match name {
        Some(n) => n,
        None => "untitled"@,
    } + "]"@
}

/// The texts of the status bar.
pub struct StatusTexts {
    /// The open file's label.
    pub file_label: String,
    /// The keys to save and quit.
    pub keys_hint: &'static str,
    /// The key that toggles the sidebar.
    pub sidebar_hint: &'static str,
    /// The keys that move the focus (only while the sidebar is shown).
    pub focus_hint: &'static str,
}

/// The texts that the status bar shows for the state.
pub fn status_texts(state: &State) -> (t: StatusTexts)
    ensures
        t.file_label@ == file_label_text(
            match state.current_file_name {
                Some(n) => Some(n@),
                None => None,
            },
            state.is_dirty,
        ),
        t.keys_hint@ == "^S:Save ^Q:Quit"@,
        t.sidebar_hint@ == "^T:Tree"@,
        t.focus_hint@ == if state.sidebar_visible {
            " ^F:Focus Tree ^E:Focus Editor"@
        } else {
            ""@
        },
{
    let mut label = String::from_str(if state.is_dirty { "~[" } else { "[" });
    match &state.current_file_name {
        Some(n) => label.append(n.as_str()),
        None => label.append("untitled"),
    }
    label.append("]");
    proof {
        reveal_strlit("~[");
        reveal_strlit("[");
        reveal_strlit("untitled");
        reveal_strlit("]");
    }
    StatusTexts {
        file_label: label,
        keys_hint: "^S:Save ^Q:Quit",
        sidebar_hint: "^T:Tree",
        focus_hint: if state.sidebar_visible { " ^F:Focus Tree ^E:Focus Editor" } else { "" },
    }
}

/// The file to save to, from the answer of the save dialog (`None` when it
/// was dismissed): the answer without surrounding white space, unless that
/// is empty.
pub fn save_dialog_path(answer: Option<&str>) -> (r: Option<String>)
    ensures
        match answer {
            Some(t) => if trimmed(t@).len() > 0 {
                r matches Some(p) && p@ == trimmed(t@)
            } else {
                r is None
            },
            None => r is None,
        },
{
    match answer {
        Some(t) => {
            let p = trim(t);
            if p.as_str().unicode_len() > 0 {
                Some(p)
            } else {
                None
            }
        },
        None => None,
    }
}

/// The line of the tree pane that shows the selection: `..` when it is
/// selected, else the selected entry's line.
pub open spec fn marked_line(nav: Navigation, dotdot_selected: bool) -> int {
    if dotdot_selected {
        0
    } else if root_has_parent(nav) {
        nav.selected + 1
    } else {
        nav.selected as int
    }
}

/// Exactly one line of the tree pane is marked as selected: the `..` line
/// when it is selected, else the selected entry's line.
pub proof fn lemma_one_line_marked(nav: Navigation, dotdot_selected: bool)
    requires
        nav.wf(),
        nav.selected < nav.flat_list@.len(),
        dotdot_selected ==> root_has_parent(nav),
    ensures
        0 <= marked_line(nav, dotdot_selected) < tree_lines(nav, dotdot_selected).len(),
        forall|k: int|
            0 <= k < tree_lines(nav, dotdot_selected).len() ==> (marks_selection(
                #[trigger] tree_lines(nav, dotdot_selected)[k],
            ) <==> k == marked_line(nav, dotdot_selected)),
{
    reveal_strlit(">");
    reveal_strlit(" ");
    let lines = tree_lines(nav, dotdot_selected);
    let off: int = if root_has_parent(nav) { 1 } else { 0 };
    assert forall|k: int| 0 <= k < lines.len() implies (marks_selection(#[trigger] lines[k]) <==> k
        == marked_line(nav, dotdot_selected)) by {
        if k < off {
            assert(lines[k] == dotdot_line(dotdot_selected));
            assert(dotdot_line(dotdot_selected)[0] == marker_text(dotdot_selected)[0]);
        } else {
            let i = k - off;
            let sel = !dotdot_selected && i == nav.selected;
            let n = nav.nodes@[nav.flat_list@[i] as int];
            assert(lines[k] == node_line(n, sel));
            assert(node_line(n, sel)[0] == marker_text(sel)[0]);
        }
    }
}

/// Showing the sidebar and hiding it again (or the other way round) gives
/// back the sidebar's visibility.
pub proof fn lemma_toggle_sidebar_twice(
    n0: Option<Navigation>,
    n1: Option<Navigation>,
    n2: Option<Navigation>,
    s0: State,
    s1: State,
    s2: State,
    home: Option<Seq<char>>,
    reads: Seq<DirListing>,
    r1: SignalStep,
    r2: SignalStep,
)
    requires
        signal_applied(n0, n1, s0, s1, AppSignal::ToggleSidebar, home, reads, r1),
        signal_applied(n1, n2, s1, s2, AppSignal::ToggleSidebar, home, reads, r2),
    ensures
        s2.sidebar_visible == s0.sidebar_visible,
        n2 == n0,
        s2.dotdot_selected == s0.dotdot_selected,
{
}

/// Moving the selection down and then up returns it to where it was,
/// unless it was on the last entry.
pub proof fn lemma_move_down_then_up(nav: Navigation)
    requires
        nav.selected + 1 < nav.flat_list@.len() <= usize::MAX,
    ensures
        moved_up(moved_down(nav)) == nav,
{
    let m = moved_up(moved_down(nav));
    assert(m.selected == nav.selected);
    assert(m.nodes == nav.nodes && m.flat_list == nav.flat_list && m.parents == nav.parents);
}

/// Moving up from the first entry of a tree whose root has a parent selects
/// `..`; moving down again selects the first entry, and the tree is as it
/// was.
pub proof fn lemma_dotdot_up_then_down(
    nav: Navigation,
    n1: Option<Navigation>,
    n2: Option<Navigation>,
    s0: State,
    s1: State,
    s2: State,
    reads: Seq<DirListing>,
    r1: SignalStep,
    r2: SignalStep,
)
    requires
        !s0.dotdot_selected,
        nav.selected == 0,
        root_has_parent(nav),
        signal_applied(Some(nav), n1, s0, s1, AppSignal::TreeMoveUp, None, reads, r1),
        signal_applied(n1, n2, s1, s2, AppSignal::TreeMoveDown, None, reads, r2),
    ensures
        s1.dotdot_selected,
        n1 == Some(nav),
        !s2.dotdot_selected,
        n2 == Some(nav),
        shows_lines(s2, nav, false),
{
}

/// Moving up in the tree: with `..` not selected and the selection on
/// entry `k > 0`, the selection moves to entry `k - 1` and `..` stays
/// unselected; `..` becomes selected only from the first entry, of a root
/// that has a parent; from `..` nothing moves.  The tree itself is
/// unchanged.
pub proof fn lemma_move_up(
    nav: Navigation,
    n1: Option<Navigation>,
    s0: State,
    s1: State,
    home: Option<Seq<char>>,
    reads: Seq<DirListing>,
    r: SignalStep,
)
    requires
        signal_handled(Some(nav), n1, s0, s1, AppSignal::TreeMoveUp, home, reads, r),
    ensures
        n1 matches Some(nav1) && nav1.nodes == nav.nodes && nav1.flat_list == nav.flat_list,
        !s0.dotdot_selected && nav.selected > 0 ==> !s1.dotdot_selected && n1->0.selected == nav.selected - 1,
        !s0.dotdot_selected && nav.selected == 0 ==> n1->0.selected == 0 && s1.dotdot_selected == (path_parent(
            nav.nodes@[nav.root as int].path@,
        ) is Some),
        s0.dotdot_selected ==> s1.dotdot_selected && n1->0.selected == nav.selected,
        s1.dotdot_selected ==> s0.dotdot_selected || nav.selected == 0,
        r matches SignalStep::Done(e) && quiet(e),
{
}

/// Moving down in the tree: from `..` the selection goes back to the
/// entry it was on (`..` unselected); otherwise it moves one entry down,
/// staying on the last entry.  `..` is never selected after moving down,
/// and the tree itself is unchanged.
pub proof fn lemma_move_down(
    nav: Navigation,
    n1: Option<Navigation>,
    s0: State,
    s1: State,
    home: Option<Seq<char>>,
    reads: Seq<DirListing>,
    r: SignalStep,
)
    requires
        signal_handled(Some(nav), n1, s0, s1, AppSignal::TreeMoveDown, home, reads, r),
    ensures
        n1 matches Some(nav1) && nav1.nodes == nav.nodes && nav1.flat_list == nav.flat_list,
        !s1.dotdot_selected,
        s0.dotdot_selected ==> n1->0.selected == nav.selected,
        !s0.dotdot_selected && nav.selected + 1 < nav.flat_list@.len() <= usize::MAX ==> n1->0.selected == nav.selected + 1,
        !s0.dotdot_selected && nav.selected + 1 >= nav.flat_list@.len() ==> n1->0.selected == nav.selected,
        r matches SignalStep::Done(e) && quiet(e),
{
}

/// The entry under the selection: node `nav.flat_list[nav.selected]`,
/// when the selection is on a shown entry.
pub open spec fn entry_under_selection(nav: Navigation) -> Option<TreeNode> {
    if nav.selected < nav.flat_list@.len() {
        Some(nav.nodes@[nav.flat_list@[nav.selected as int] as int])
    } else {
        None
    }
}

/// Expanding, collapsing and entering act only on the right entries: with
/// `..` selected, expanding or entering asks to go to the parent and
/// collapsing does nothing; expanding an entry that is not a closed
/// directory, or collapsing one that is not open, changes nothing; entering
/// a file asks to open that file and changes nothing else.
pub proof fn lemma_tree_keys_act_on_the_right_entries(
    nav: Navigation,
    n1: Option<Navigation>,
    s0: State,
    s1: State,
    sig: AppSignal,
    home: Option<Seq<char>>,
    reads: Seq<DirListing>,
    r: SignalStep,
)
    requires
        signal_handled(Some(nav), n1, s0, s1, sig, home, reads, r),
    ensures
        s0.dotdot_selected && (sig is TreeExpand || sig is TreeEnter) ==> n1 == Some(nav) && s1 == s0 && (
        r matches SignalStep::Done(e) && e.send == Some(AppSignal::TreeGoToParent) && e.load_file is None
            && !e.save_buffer),
        s0.dotdot_selected && sig is TreeCollapse ==> n1 == Some(nav) && s1 == s0,
        !s0.dotdot_selected && sig is TreeExpand && !(entry_under_selection(nav) matches Some(n) && n.is_dir
            && !n.is_expanded) ==> n1 == Some(nav) && s1 == s0 && (r matches SignalStep::Done(e) && e.send is None),
        !s0.dotdot_selected && sig is TreeCollapse && !(entry_under_selection(nav) matches Some(n)
            && n.is_expanded) ==> n1 == Some(nav) && s1 == s0 && (r matches SignalStep::Done(e) && e.send is None),
        !s0.dotdot_selected && sig is TreeEnter && (entry_under_selection(nav) matches Some(n) && !n.is_dir) ==> n1
            == Some(nav) && s1 == s0 && (r matches SignalStep::Done(e) && e.send matches Some(AppSignal::OpenFile(p))
            && p@ == entry_under_selection(nav)->0.path@),
{
}

/// Expanding a closed directory opens it (it stays closed only when its
/// error flag is set), and collapsing an open one closes it; entering a
/// directory does whichever applies.  The entry keeps its path.  This is
/// said of the selected entry when no later shown entry has the same path;
/// the one other outcome is an arena too small for the directory's
/// entries, which leaves the tree as it was.
pub proof fn lemma_tree_keys_toggle_the_selection(
    nav: Navigation,
    n1: Option<Navigation>,
    s0: State,
    s1: State,
    sig: AppSignal,
    home: Option<Seq<char>>,
    reads: Seq<DirListing>,
    r: SignalStep,
)
    requires
        nav.wf(),
        signal_handled(Some(nav), n1, s0, s1, sig, home, reads, r),
        !s0.dotdot_selected,
        sig is TreeExpand || sig is TreeCollapse || sig is TreeEnter,
        entry_under_selection(nav) matches Some(n) && n.is_dir,
        last_path_match(nav.nodes@, nav.flat_list@, entry_under_selection(nav)->0.path@) == Some(nav.selected as int),
        r is Done,
    ensures
        ({
            let x = nav.flat_list@[nav.selected as int] as int;
            let n = nav.nodes@[x];
            let opens = !n.is_expanded && (sig is TreeExpand || sig is TreeEnter);
            let closes = n.is_expanded && (sig is TreeCollapse || sig is TreeEnter);
            &&& n1 matches Some(nav1)
            &&& (opens || closes) ==> {
                ||| (n1->0.nodes@[x].path == n.path && n1->0.nodes@[x].is_expanded == (opens
                    && !n1->0.nodes@[x].has_error))
                ||| (n1 == Some(nav) && will_load(n) && nav.nodes@.len() + crate::tree::tree_node::read_len(
                    read_used(nav.nodes@, x, reads),
                ) > usize::MAX)
            }
        }),
{
    let x = nav.flat_list@[nav.selected as int] as int;
    crate::tree::navigation::lemma_flat_list_in_arena(&nav);
}

/// The file label of the status bar: it starts with `~` exactly when the
/// buffer has unsaved changes; then the file's name (or `untitled`) stands
/// in square brackets.
pub proof fn lemma_file_label(name: Option<Seq<char>>, is_dirty: bool)
    ensures
        ({
            let l = file_label_text(name, is_dirty);
            let k: int = if is_dirty { 1 } else { 0 };
            let shown = match name {
                Some(n) => n,
                None => seq!['u', 'n', 't', 'i', 't', 'l', 'e', 'd'],
            };
            &&& (l[0] == '~') == is_dirty
            &&& l.len() == k + 2 + shown.len()
            &&& l[k] == '['
            &&& l.subrange(k + 1, l.len() - 1) == shown
            &&& l[l.len() - 1] == ']'
        }),
{
    reveal_strlit("~[");
    reveal_strlit("[");
    reveal_strlit("]");
    reveal_strlit("untitled");
    let l = file_label_text(name, is_dirty);
    let k: int = if is_dirty { 1 } else { 0 };
    let shown = match name {
        Some(n) => n,
        None => seq!['u', 'n', 't', 'i', 't', 'l', 'e', 'd'],
    };
    assert("untitled"@ =~= seq!['u', 'n', 't', 'i', 't', 'l', 'e', 'd']);
    let head = if is_dirty { "~["@ } else { "["@ };
    assert(l == head + shown + "]"@);
    assert(l.subrange(k + 1, l.len() - 1) =~= shown);
    if !is_dirty {
        assert(l[0] == '[');
    }
}

} // verus!
