use krust::config::BehaviorConfig;
use krust::state::{abbreviate_path, default_file_extension, file_display_name, get_file_extension, new, State};
use krust::text::{decimal_string, is_whitespace, str_lt, trim};
use krust::tree::component::{scrollbar_thumb_bounds, tree_pane, truncate_to_width};
use krust::tree::file_ops::{file_op_error_message, rename_destination, transfer_destination, FileOpError};

#[test]
fn truncate_pads_and_cuts_to_display_width() {
    assert_eq!(truncate_to_width("abc", 5), "abc  ");
    assert_eq!(truncate_to_width("abcdef", 3), "ab\u{2026}");
    assert_eq!(truncate_to_width("hello world", 5), "hell\u{2026}");
    assert_eq!(truncate_to_width("", 2), "  ");
    assert_eq!(truncate_to_width("中文字", 5), "中文\u{2026}");
    assert_eq!(truncate_to_width("中文字", 4), "中\u{2026} ");
    assert_eq!(truncate_to_width("a中", 2), "a\u{2026}");
    assert_eq!(truncate_to_width("\u{f07b} x", 4), "\u{f07b} x ");
    assert_eq!(truncate_to_width("abc", 0), "");
}

#[test]
fn scrollbar_thumb_positions() {
    assert_eq!(scrollbar_thumb_bounds(5, 10, 0), (0, 10));
    assert_eq!(scrollbar_thumb_bounds(5, 0, 3), (0, 0));
    assert_eq!(scrollbar_thumb_bounds(100, 10, 0), (0, 1));
    assert_eq!(scrollbar_thumb_bounds(100, 10, 45), (4, 5));
    assert_eq!(scrollbar_thumb_bounds(100, 10, 90), (9, 10));
    assert_eq!(scrollbar_thumb_bounds(100, 10, 500), (9, 10));
    assert_eq!(scrollbar_thumb_bounds(20, 10, 5), (2, 7));
}

#[test]
fn tree_pane_rows_titles_and_scrollbar() {
    let lines: Vec<String> = vec![">a".to_string(), " b".to_string(), " c".to_string()];
    let pane = tree_pane("~/r", &lines, 3, 5, 0);
    assert_eq!(pane.title, " ~/r ");
    assert_eq!(pane.rows.len(), 2);
    assert_eq!(pane.content_cols, 4);
    assert_eq!(pane.rows[0].text, ">a  ");
    assert!(pane.rows[0].selected);
    assert_eq!(pane.rows[0].scrollbar, Some(true));
    assert_eq!(pane.rows[1].text, " b  ");
    assert!(!pane.rows[1].selected);
    let pane = tree_pane("/", &lines, 5, 4, 1);
    assert_eq!(pane.rows.len(), 4);
    assert_eq!(pane.content_cols, 4);
    assert_eq!(pane.rows[0].text, " b  ");
    assert_eq!(pane.rows[2].text, "    ");
    assert_eq!(pane.rows[0].scrollbar, None);
}

#[test]
fn paths_for_display() {
    assert_eq!(abbreviate_path("/home/u/code/x", Some("/home/u")), "~/code/x");
    assert_eq!(abbreviate_path("/home/uv/x", Some("/home/u")), "/home/uv/x");
    assert_eq!(abbreviate_path("/etc", None), "/etc");
    assert_eq!(get_file_extension(Some("/a/b.rs")), "rs");
    assert_eq!(get_file_extension(Some("/a/b")), "md");
    assert_eq!(get_file_extension(Some("/a/.bashrc")), "md");
    assert_eq!(get_file_extension(None), "md");
    assert_eq!(default_file_extension(), "md");
    assert_eq!(file_display_name("/a/b.md", "untitled"), "b.md");
    assert_eq!(file_display_name("/", "untitled"), "untitled");
}

#[test]
fn starting_state() {
    let s = State::with_root("/home/u/r".to_string(), Some("/home/u"));
    assert!(!s.sidebar_visible && s.show_files && !s.show_hidden && !s.follow_symlinks);
    assert_eq!(s.tree_root_display, "~/r");
    assert!(s.tree_render_lines.is_none());
    let plain = BehaviorConfig { show_hidden: false, follow_symlinks: false, sidebar_width: 25 };
    let s = new(Some("docs/a.md"), "/w".to_string(), None, &plain);
    assert_eq!(s.current_file_name.as_deref(), Some("a.md"));
    assert_eq!(s.tree_root_path, "/w");
    assert!(s.sidebar_visible && s.show_files && !s.show_hidden && !s.follow_symlinks);
    let s = new(Some(".."), "/w".to_string(), None, &plain);
    assert_eq!(s.current_file_name.as_deref(), Some(".."));
    let everything = BehaviorConfig { show_hidden: true, follow_symlinks: true, sidebar_width: 40 };
    let s = new(None, "/home/u/w".to_string(), Some("/home/u"), &everything);
    assert!(s.current_file_name.is_none());
    assert!(s.sidebar_visible && s.show_hidden && s.follow_symlinks);
    assert_eq!(s.tree_root_display, "~/w");
    assert!(!s.is_dirty && !s.eat_next_input && s.tree_render_lines.is_none());
}

#[test]
fn destinations_of_file_operations() {
    assert_eq!(transfer_destination("/a/b.md", "/c"), Ok("/c/b.md".to_string()));
    assert_eq!(transfer_destination("/", "/c"), Err(FileOpError::NoFileName));
    assert_eq!(rename_destination("/a/b.md", "z.md"), Ok("/a/z.md".to_string()));
    assert_eq!(rename_destination("/", "z"), Err(FileOpError::NoParent));
    assert_eq!(file_op_error_message(&FileOpError::NoFileName), "Source has no filename");
    assert_eq!(file_op_error_message(&FileOpError::NoParent), "Path has no parent");
}

#[test]
fn text_helpers() {
    assert_eq!(trim("  a b \t\n"), "a b");
    assert_eq!(trim("\u{3000}x\u{a0}"), "x");
    assert_eq!(trim(""), "");
    assert!(is_whitespace('\u{2028}'));
    assert!(!is_whitespace('x'));
    assert!(!is_whitespace('\u{200b}'));
    assert!(str_lt("a", "b"));
    assert!(str_lt("B", "a"));
    assert!(!str_lt("ab", "a"));
    assert!(str_lt("a", "ab"));
    assert_eq!(decimal_string(0), "0");
    assert_eq!(decimal_string(1204), "1204");
}
