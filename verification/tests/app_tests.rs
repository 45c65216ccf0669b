use krust::app::{
    app_handle_input_event, finish_save, pane_widths, save_action, save_dialog_path, status_texts, AppMain,
    AppSignal, Id,
    InputOutcome, SaveAction, SignalStep,
};
use krust::state::State;
use krust::tree::component::{handle_event, TreeKey};
use krust::tree::navigation::{DirListing, NavStep, Navigation};
use krust::tree::tree_node::{DirEntryInfo, DirEntryRead, DirRead};

fn entry(path: &str, is_dir: bool) -> DirEntryRead {
    DirEntryRead::Entry(DirEntryInfo { path: path.to_string(), is_dir, is_symlink: false })
}

fn listing(dir: &str, entries: Vec<DirEntryRead>) -> DirListing {
    DirListing { dir: dir.to_string(), is_dir: true, read: DirRead::Entries(entries) }
}

fn reads() -> Vec<DirListing> {
    vec![listing("/r", vec![entry("/r/notes.md", false), entry("/r/src", true)])]
}

/// Handles a signal, supplying directory reads from `disk` until it is done.
fn handle(app: &mut AppMain, signal: &AppSignal, state: &mut State, disk: &Vec<DirListing>) -> SignalStep {
    let mut given: Vec<DirListing> = Vec::new();
    loop {
        match app.app_handle_signal(signal, state, Some("/home/u"), &given) {
            SignalStep::NeedRead(d) => {
                let l = disk.iter().find(|l| l.dir == d).expect("the test disk has it");
                given.push(DirListing {
                    dir: l.dir.clone(),
                    is_dir: l.is_dir,
                    read: match &l.read {
                        DirRead::Entries(es) => DirRead::Entries(
                            es.iter()
                                .map(|e| match e {
                                    DirEntryRead::Entry(i) => DirEntryRead::Entry(DirEntryInfo {
                                        path: i.path.clone(),
                                        is_dir: i.is_dir,
                                        is_symlink: i.is_symlink,
                                    }),
                                    DirEntryRead::Failed(t) => DirEntryRead::Failed(t.clone()),
                                })
                                .collect(),
                        ),
                        DirRead::Failed(t) => DirRead::Failed(t.clone()),
                    },
                });
            }
            done => return done,
        }
    }
}

#[test]
fn id_numbers() {
    assert_eq!(u8::from(Id::Container), 1);
    assert_eq!(u8::from(Id::ComponentEditor), 2);
    assert_eq!(u8::from(Id::ComponentFocusDialog), 5);
    assert_eq!(u8::from(Id::StyleContainer), 10);
    assert_eq!(u8::from(Id::StyleFocusDialogResultsPanel), 20);
}

#[test]
fn default_signal_is_noop() {
    assert!(matches!(AppSignal::default(), AppSignal::Noop));
}

#[test]
fn tree_lines_show_dotdot_marker_indent_and_icons() {
    let nav = match Navigation::new("/r".to_string(), true, false, false, &reads()) {
        NavStep::Done(n) => n,
        _ => panic!(),
    };
    assert!(AppMain::has_dotdot(&nav));
    let lines = AppMain::build_tree_render_lines(&nav, false);
    assert_eq!(
        lines,
        vec![
            " \u{f07b}  ..".to_string(),
            ">\u{f07c} r".to_string(),
            "   \u{f07b} src".to_string(),
            "   \u{f15b} notes.md".to_string(),
        ]
    );
    let lines = AppMain::build_tree_render_lines(&nav, true);
    assert_eq!(lines[0], ">\u{f07b}  ..");
    assert_eq!(lines[1], " \u{f07c} r");
    assert_eq!(lines.iter().filter(|l| l.starts_with('>')).count(), 1);
}

#[test]
fn root_of_the_file_system_has_no_dotdot() {
    let disk = vec![listing("/", vec![entry("/etc", true)])];
    let nav = match Navigation::new("/".to_string(), true, false, false, &disk) {
        NavStep::Done(n) => n,
        _ => panic!(),
    };
    assert!(!AppMain::has_dotdot(&nav));
    let lines = AppMain::build_tree_render_lines(&nav, false);
    assert_eq!(lines, vec![">\u{f07c} ".to_string(), "   \u{f07b} etc".to_string()]);
}

#[test]
fn toggle_sidebar_opens_the_tree_and_renders_it() {
    let disk = reads();
    let mut app = AppMain::default();
    let mut state = State::with_root("/home/u/r".to_string(), Some("/home/u"));
    state.tree_root_path = "/r".to_string();
    let none: Vec<DirListing> = Vec::new();
    match app.app_handle_signal(&AppSignal::ToggleSidebar, &mut state, Some("/home/u"), &none) {
        SignalStep::NeedRead(d) => assert_eq!(d, "/r"),
        _ => panic!("the root must be read first"),
    }
    assert!(!state.sidebar_visible);
    match handle(&mut app, &AppSignal::ToggleSidebar, &mut state, &disk) {
        SignalStep::Done(e) => {
            assert!(e.repaint_all);
            assert!(!e.focus_editor);
        }
        _ => panic!(),
    }
    assert!(state.sidebar_visible);
    assert!(state.eat_next_input);
    assert_eq!(state.tree_root_display, "/r");
    assert_eq!(state.tree_render_lines.as_ref().map(|l| l.len()), Some(4));
    match handle(&mut app, &AppSignal::ToggleSidebar, &mut state, &disk) {
        SignalStep::Done(e) => assert!(e.focus_editor && e.repaint_all),
        _ => panic!(),
    }
    assert!(!state.sidebar_visible);
}

#[test]
fn moving_up_from_the_top_selects_dotdot_and_back() {
    let disk = reads();
    let mut app = AppMain::default();
    let mut state = State::with_root("/r".to_string(), None);
    handle(&mut app, &AppSignal::TreeMoveUp, &mut state, &disk);
    assert!(state.dotdot_selected);
    assert!(state.tree_render_lines.as_ref().unwrap()[0].starts_with('>'));
    handle(&mut app, &AppSignal::TreeMoveUp, &mut state, &disk);
    assert!(state.dotdot_selected);
    handle(&mut app, &AppSignal::TreeMoveDown, &mut state, &disk);
    assert!(!state.dotdot_selected);
    assert!(state.tree_render_lines.as_ref().unwrap()[1].starts_with('>'));
    handle(&mut app, &AppSignal::TreeMoveDown, &mut state, &disk);
    assert!(state.tree_render_lines.as_ref().unwrap()[2].starts_with('>'));
    assert_eq!(app.navigation.as_ref().unwrap().selected, 1);
}

#[test]
fn enter_on_a_directory_toggles_it_and_on_a_file_opens_it() {
    let mut disk = reads();
    disk.push(listing("/r/src", vec![entry("/r/src/main.rs", false)]));
    let mut app = AppMain::default();
    let mut state = State::with_root("/r".to_string(), None);
    handle(&mut app, &AppSignal::TreeMoveDown, &mut state, &disk);
    match handle(&mut app, &AppSignal::TreeEnter, &mut state, &disk) {
        SignalStep::Done(e) => assert!(e.send.is_none()),
        _ => panic!(),
    }
    assert_eq!(state.tree_render_lines.as_ref().unwrap().len(), 5);
    assert_eq!(state.tree_render_lines.as_ref().unwrap()[3], "     \u{f15b} main.rs");
    handle(&mut app, &AppSignal::TreeMoveDown, &mut state, &disk);
    match handle(&mut app, &AppSignal::TreeEnter, &mut state, &disk) {
        SignalStep::Done(e) => match e.send {
            Some(AppSignal::OpenFile(p)) => assert_eq!(p, "/r/src/main.rs"),
            _ => panic!("expected a file to open"),
        },
        _ => panic!(),
    }
}

#[test]
fn expand_and_collapse_only_act_on_the_right_nodes() {
    let mut disk = reads();
    disk.push(listing("/r/src", vec![entry("/r/src/main.rs", false)]));
    let mut app = AppMain::default();
    let mut state = State::with_root("/r".to_string(), None);
    handle(&mut app, &AppSignal::TreeMoveDown, &mut state, &disk);
    handle(&mut app, &AppSignal::TreeExpand, &mut state, &disk);
    assert_eq!(state.tree_render_lines.as_ref().unwrap().len(), 5);
    // Expanding an open directory does nothing.
    handle(&mut app, &AppSignal::TreeExpand, &mut state, &disk);
    assert_eq!(state.tree_render_lines.as_ref().unwrap().len(), 5);
    handle(&mut app, &AppSignal::TreeCollapse, &mut state, &disk);
    assert_eq!(state.tree_render_lines.as_ref().unwrap().len(), 4);
    // Collapsing a closed directory does nothing.
    handle(&mut app, &AppSignal::TreeCollapse, &mut state, &disk);
    assert_eq!(state.tree_render_lines.as_ref().unwrap().len(), 4);
}

#[test]
fn enter_on_dotdot_asks_to_go_to_the_parent() {
    let disk = reads();
    let mut app = AppMain::default();
    let mut state = State::with_root("/r".to_string(), None);
    handle(&mut app, &AppSignal::TreeMoveUp, &mut state, &disk);
    match handle(&mut app, &AppSignal::TreeEnter, &mut state, &disk) {
        SignalStep::Done(e) => assert!(matches!(e.send, Some(AppSignal::TreeGoToParent))),
        _ => panic!(),
    }
    match handle(&mut app, &AppSignal::TreeExpand, &mut state, &disk) {
        SignalStep::Done(e) => assert!(matches!(e.send, Some(AppSignal::TreeGoToParent))),
        _ => panic!(),
    }
}

#[test]
fn go_to_parent_reroots_the_tree_and_abbreviates_it() {
    let mut disk = vec![listing("/home/u/r", vec![entry("/home/u/r/a.md", false)])];
    disk.push(listing("/home/u", vec![entry("/home/u/r", true), entry("/home/u/b", true)]));
    let mut app = AppMain::default();
    let mut state = State::with_root("/home/u/r".to_string(), Some("/home/u"));
    assert_eq!(state.tree_root_display, "~/r");
    handle(&mut app, &AppSignal::TreeMoveUp, &mut state, &disk);
    assert!(state.dotdot_selected);
    handle(&mut app, &AppSignal::TreeGoToParent, &mut state, &disk);
    assert!(!state.dotdot_selected);
    assert_eq!(state.tree_root_display, "~/");
    let nav = app.navigation.as_ref().unwrap();
    assert_eq!(nav.nodes[0].path, "/home/u");
    assert_eq!(nav.nodes[nav.flat_list[nav.selected]].path, "/home/u/r");
}

#[test]
fn open_file_updates_the_status_and_asks_to_load() {
    let mut app = AppMain::default();
    let mut state = State::with_root("/r".to_string(), None);
    state.is_dirty = true;
    let none = Vec::new();
    match app.app_handle_signal(&AppSignal::OpenFile("/r/doc.md".to_string()), &mut state, None, &none) {
        SignalStep::Done(e) => {
            assert!(e.focus_editor);
            assert_eq!(e.load_file.as_deref(), Some("/r/doc.md"));
        }
        _ => panic!(),
    }
    assert_eq!(state.current_file_name.as_deref(), Some("doc.md"));
    assert!(!state.is_dirty);
    assert!(app.navigation.is_none());
}

#[test]
fn mark_dirty_save_and_ask_signals() {
    let mut app = AppMain::default();
    let mut state = State::with_root("/r".to_string(), None);
    let none = Vec::new();
    assert!(matches!(app.app_handle_signal(&AppSignal::MarkDirty, &mut state, None, &none), SignalStep::Done(_)));
    assert!(state.is_dirty);
    match app.app_handle_signal(&AppSignal::SaveFile, &mut state, None, &none) {
        SignalStep::Done(e) => assert!(e.save_buffer && !e.ask_file_name),
        _ => panic!(),
    }
    match app.app_handle_signal(&AppSignal::AskForFilenameToSaveFile, &mut state, None, &none) {
        SignalStep::Done(e) => assert!(e.ask_file_name && !e.save_buffer),
        _ => panic!(),
    }
    match app.app_handle_signal(&AppSignal::Noop, &mut state, None, &none) {
        SignalStep::Done(e) => assert!(e.send.is_none() && !e.focus_editor),
        _ => panic!(),
    }
    assert!(state.is_dirty);
}

#[test]
fn render_prepares_the_tree_lines_once() {
    let disk = reads();
    let mut app = AppMain::default();
    let mut state = State::with_root("/r".to_string(), None);
    let none = Vec::new();
    assert_eq!(app.prepare_render(&mut state, &none), Some("/r".to_string()));
    assert!(state.tree_render_lines.is_none());
    assert_eq!(app.prepare_render(&mut state, &disk), None);
    assert_eq!(state.tree_render_lines.as_ref().map(|l| l.len()), Some(4));
    state.tree_render_lines = Some(vec!["kept".to_string()]);
    assert_eq!(app.prepare_render(&mut state, &none), None);
    assert_eq!(state.tree_render_lines, Some(vec!["kept".to_string()]));
}

#[test]
fn application_keys() {
    assert!(matches!(app_handle_input_event(Some('t'), false), InputOutcome::Send(AppSignal::ToggleSidebar)));
    assert!(matches!(app_handle_input_event(Some('s'), true), InputOutcome::Send(AppSignal::SaveFile)));
    assert!(matches!(app_handle_input_event(Some('f'), true), InputOutcome::FocusTree));
    assert!(matches!(app_handle_input_event(Some('f'), false), InputOutcome::Consumed));
    assert!(matches!(app_handle_input_event(Some('e'), false), InputOutcome::FocusEditor));
    assert!(matches!(app_handle_input_event(Some('x'), true), InputOutcome::Route));
    assert!(matches!(app_handle_input_event(None, true), InputOutcome::Route));
}

#[test]
fn tree_pane_keys() {
    assert!(matches!(handle_event(TreeKey::Up), Some(AppSignal::TreeMoveUp)));
    assert!(matches!(handle_event(TreeKey::Down), Some(AppSignal::TreeMoveDown)));
    assert!(matches!(handle_event(TreeKey::Right), Some(AppSignal::TreeExpand)));
    assert!(matches!(handle_event(TreeKey::Left), Some(AppSignal::TreeCollapse)));
    assert!(matches!(handle_event(TreeKey::Enter), Some(AppSignal::TreeEnter)));
    assert!(matches!(handle_event(TreeKey::Backspace), Some(AppSignal::TreeGoToParent)));
    assert!(handle_event(TreeKey::Other).is_none());
}

#[test]
fn save_decisions() {
    assert!(matches!(save_action(false, Some("/x".to_string()), false), SaveAction::Nothing));
    match save_action(true, Some("/x.md".to_string()), true) {
        SaveAction::Write(p) => assert_eq!(p, "/x.md"),
        _ => panic!(),
    }
    assert!(matches!(save_action(true, None, false), SaveAction::AskFileName));
    assert!(matches!(save_action(true, None, true), SaveAction::Nothing));
    assert_eq!(save_dialog_path(Some("  notes.md \n")), Some("notes.md".to_string()));
    assert_eq!(save_dialog_path(Some("   ")), None);
    assert_eq!(save_dialog_path(None), None);
}

#[test]
fn a_written_save_clears_the_dirty_flag_and_a_failed_one_keeps_it() {
    let mut state = State::with_root("/r".to_string(), None);
    state.is_dirty = true;
    finish_save(&mut state, false);
    assert!(state.is_dirty);
    finish_save(&mut state, true);
    assert!(!state.is_dirty);
    assert_eq!(state.tree_root_path, "/r");
    finish_save(&mut state, false);
    assert!(!state.is_dirty);
}

#[test]
fn sidebar_width_sets_the_pane_widths() {
    assert_eq!(pane_widths(25), (25, 75));
    assert_eq!(pane_widths(40), (40, 60));
    assert_eq!(pane_widths(0), (0, 100));
    assert_eq!(pane_widths(100), (100, 0));
    assert_eq!(pane_widths(250), (100, 0));
}

#[test]
fn status_bar_texts() {
    let mut state = State::with_root("/r".to_string(), None);
    let t = status_texts(&state);
    assert_eq!(t.file_label, "[untitled]");
    assert_eq!(t.focus_hint, "");
    assert_eq!(t.sidebar_hint, "^T:Tree");
    assert_eq!(t.keys_hint, "^S:Save ^Q:Quit");
    state.is_dirty = true;
    state.current_file_name = Some("a.md".to_string());
    state.sidebar_visible = true;
    let t = status_texts(&state);
    assert_eq!(t.file_label, "~[a.md]");
    assert_eq!(t.focus_hint, " ^F:Focus Tree ^E:Focus Editor");
    state.current_file_name = None;
    assert_eq!(status_texts(&state).file_label, "~[untitled]");
    state.is_dirty = false;
    state.current_file_name = Some("b.md".to_string());
    assert_eq!(status_texts(&state).file_label, "[b.md]");
}
