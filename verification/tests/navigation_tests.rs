use krust::tree::navigation::{DirListing, NavStep, Navigation};
use krust::tree::tree_node::{DirEntryInfo, DirEntryRead, DirRead, TreeNode};

fn entry(path: &str, is_dir: bool) -> DirEntryRead {
    DirEntryRead::Entry(DirEntryInfo { path: path.to_string(), is_dir, is_symlink: false })
}

fn link(path: &str, is_dir: bool) -> DirEntryRead {
    DirEntryRead::Entry(DirEntryInfo { path: path.to_string(), is_dir, is_symlink: true })
}

fn listing(dir: &str, entries: Vec<DirEntryRead>) -> DirListing {
    DirListing { dir: dir.to_string(), is_dir: true, read: DirRead::Entries(entries) }
}

fn root_reads() -> Vec<DirListing> {
    vec![listing(
        "/r",
        vec![
            entry("/r/b.md", false),
            entry("/r/src", true),
            entry("/r/.git", true),
            entry("/r/a.md", false),
            link("/r/lnk", true),
            entry("/r/docs", true),
        ],
    )]
}

fn open(reads: &Vec<DirListing>) -> Navigation {
    match Navigation::new("/r".to_string(), true, false, false, reads) {
        NavStep::Done(nav) => nav,
        _ => panic!("the root read was given"),
    }
}

fn visible_paths(nav: &Navigation) -> Vec<String> {
    nav.flat_list.iter().map(|&i| nav.nodes[i].path.clone()).collect()
}

#[test]
fn new_asks_for_the_root_first() {
    let reads = Vec::new();
    match Navigation::new("/r".to_string(), true, false, false, &reads) {
        NavStep::NeedRead(d) => assert_eq!(d, "/r"),
        _ => panic!("expected a read request"),
    }
}

#[test]
fn new_lists_directories_first_then_by_name() {
    let nav = open(&root_reads());
    assert_eq!(
        visible_paths(&nav),
        vec!["/r", "/r/docs", "/r/src", "/r/a.md", "/r/b.md"]
    );
    assert_eq!(nav.selected, 0);
    assert!(nav.nodes[0].is_expanded);
    assert_eq!(nav.nodes[0].name, "r");
    assert_eq!(nav.nodes[nav.flat_list[1]].depth, 1);
}

#[test]
fn new_without_files_lists_only_directories() {
    let reads = root_reads();
    let nav = match Navigation::new("/r".to_string(), false, false, false, &reads) {
        NavStep::Done(nav) => nav,
        _ => panic!(),
    };
    assert_eq!(visible_paths(&nav), vec!["/r", "/r/docs", "/r/src"]);
}

#[test]
fn new_with_hidden_and_links_shows_them() {
    let reads = root_reads();
    let nav = match Navigation::new("/r".to_string(), true, true, true, &reads) {
        NavStep::Done(nav) => nav,
        _ => panic!(),
    };
    assert_eq!(
        visible_paths(&nav),
        vec!["/r", "/r/.git", "/r/docs", "/r/lnk", "/r/src", "/r/a.md", "/r/b.md"]
    );
}

#[test]
fn failed_root_read_is_reported_on_the_root() {
    let reads = vec![DirListing {
        dir: "/r".to_string(),
        is_dir: true,
        read: DirRead::Failed("permission denied".to_string()),
    }];
    let nav = open(&reads);
    assert!(nav.nodes[0].has_error);
    assert_eq!(nav.nodes[0].error_message.as_deref(), Some("Cannot read: permission denied"));
    assert_eq!(visible_paths(&nav), vec!["/r"]);
}

#[test]
fn unreadable_entries_are_counted_in_the_message() {
    let reads = vec![listing(
        "/r",
        vec![
            entry("/r/a.md", false),
            DirEntryRead::Failed("bad".to_string()),
            DirEntryRead::Failed("worse".to_string()),
        ],
    )];
    let nav = open(&reads);
    assert!(nav.nodes[0].has_error);
    assert_eq!(nav.nodes[0].error_message.as_deref(), Some("unknown entry: bad, unknown entry: worse"));
    let many = vec![listing(
        "/r",
        vec![
            DirEntryRead::Failed("1".to_string()),
            DirEntryRead::Failed("2".to_string()),
            DirEntryRead::Failed("3".to_string()),
            DirEntryRead::Failed("4".to_string()),
        ],
    )];
    let nav = open(&many);
    assert_eq!(nav.nodes[0].error_message.as_deref(), Some("4 entries inaccessible"));
}

#[test]
fn move_down_and_up_stay_in_bounds() {
    let mut nav = open(&root_reads());
    nav.move_up();
    assert_eq!(nav.selected, 0);
    for _ in 0..10 {
        nav.move_down();
    }
    assert_eq!(nav.selected, 4);
    nav.move_up();
    assert_eq!(nav.selected, 3);
    let node = nav.get_selected_node().expect("a node is selected");
    assert_eq!(node.path, "/r/a.md");
}

#[test]
fn toggle_node_asks_for_the_directory_then_expands_it() {
    let mut reads = root_reads();
    let mut nav = open(&reads);
    match nav.toggle_node("/r/src", true, &reads) {
        NavStep::NeedRead(d) => assert_eq!(d, "/r/src"),
        _ => panic!("expected a read request"),
    }
    assert_eq!(visible_paths(&nav).len(), 5);
    reads.push(listing("/r/src", vec![entry("/r/src/main.rs", false), entry("/r/src/lib", true)]));
    match nav.toggle_node("/r/src", true, &reads) {
        NavStep::Done(err) => assert!(err.is_none()),
        _ => panic!("expected the toggle to complete"),
    }
    assert_eq!(
        visible_paths(&nav),
        vec!["/r", "/r/docs", "/r/src", "/r/src/lib", "/r/src/main.rs", "/r/a.md", "/r/b.md"]
    );
    let lib = nav.flat_list[3];
    assert_eq!(nav.nodes[lib].depth, 2);
}

#[test]
fn toggling_twice_restores_the_flat_list() {
    let mut reads = root_reads();
    reads.push(listing("/r/src", vec![entry("/r/src/main.rs", false)]));
    let mut nav = open(&reads);
    let before = visible_paths(&nav);
    assert!(matches!(nav.toggle_node("/r/src", true, &reads), NavStep::Done(_)));
    assert_eq!(visible_paths(&nav).len(), 6);
    assert!(matches!(nav.toggle_node("/r/src", true, &reads), NavStep::Done(_)));
    assert_eq!(visible_paths(&nav), before);
    // A third toggle opens the directory again without a new read.
    let no_reads = Vec::new();
    assert!(matches!(nav.toggle_node("/r/src", true, &no_reads), NavStep::Done(_)));
    assert_eq!(visible_paths(&nav).len(), 6);
    // Closing it again, still without a read, gives back the first list.
    assert!(matches!(nav.toggle_node("/r/src", true, &no_reads), NavStep::Done(None)));
    assert_eq!(visible_paths(&nav), before);
}

#[test]
fn closing_and_reopening_an_open_directory_restores_the_list() {
    let mut reads = root_reads();
    reads.push(listing("/r/src", vec![entry("/r/src/main.rs", false), entry("/r/src/lib.rs", false)]));
    let mut nav = open(&reads);
    assert!(matches!(nav.toggle_node("/r/src", true, &reads), NavStep::Done(None)));
    nav.move_down();
    nav.move_down();
    let open_list = visible_paths(&nav);
    let selected = nav.selected;
    let no_reads = Vec::new();
    assert!(matches!(nav.toggle_node("/r/src", true, &no_reads), NavStep::Done(None)));
    assert_eq!(visible_paths(&nav).len(), 5);
    assert!(matches!(nav.toggle_node("/r/src", true, &no_reads), NavStep::Done(None)));
    assert_eq!(visible_paths(&nav), open_list);
    assert_eq!(nav.selected, selected);
}

#[test]
fn toggle_of_a_failing_directory_reports_and_stays_closed() {
    let mut reads = root_reads();
    reads.push(DirListing {
        dir: "/r/docs".to_string(),
        is_dir: true,
        read: DirRead::Failed("denied".to_string()),
    });
    let mut nav = open(&reads);
    match nav.toggle_node("/r/docs", true, &reads) {
        NavStep::Done(Some(msg)) => assert_eq!(msg, "Cannot read: denied"),
        _ => panic!("expected an error message"),
    }
    assert_eq!(visible_paths(&nav).len(), 5);
}

#[test]
fn toggle_of_a_file_changes_nothing() {
    let reads = root_reads();
    let mut nav = open(&reads);
    assert!(matches!(nav.toggle_node("/r/a.md", true, &reads), NavStep::Done(None)));
    assert_eq!(visible_paths(&nav).len(), 5);
}

#[test]
fn go_to_parent_reroots_and_selects_the_old_root() {
    let mut reads = root_reads();
    let mut nav = open(&reads);
    match nav.go_to_parent(true, &reads) {
        NavStep::NeedRead(d) => assert_eq!(d, "/"),
        _ => panic!("expected a read of the parent"),
    }
    reads.push(listing("/", vec![entry("/r", true), entry("/etc", true), entry("/x.txt", false)]));
    assert!(matches!(nav.go_to_parent(true, &reads), NavStep::Done(())));
    assert_eq!(visible_paths(&nav), vec!["/", "/etc", "/r", "/x.txt"]);
    assert_eq!(nav.selected, 2);
    assert_eq!(nav.nodes[0].path, "/");
    // The root of the file system has no parent: nothing happens.
    assert!(matches!(nav.go_to_parent(true, &reads), NavStep::Done(())));
    assert_eq!(nav.nodes[0].path, "/");
}

#[test]
fn reload_tree_reads_the_root_again() {
    let reads = root_reads();
    let mut nav = open(&reads);
    let fresh = vec![listing("/r", vec![entry("/r/new.md", false)])];
    assert!(matches!(nav.reload_tree(true, &fresh), NavStep::Done(())));
    assert_eq!(visible_paths(&nav), vec!["/r", "/r/new.md"]);
}

#[test]
fn expand_path_to_node_opens_the_way_and_selects() {
    let mut reads = root_reads();
    let mut nav = open(&reads);
    match nav.expand_path_to_node("/r/src/lib/x.rs", true, &reads) {
        NavStep::NeedRead(d) => assert_eq!(d, "/r/src"),
        _ => panic!("expected a read of /r/src"),
    }
    reads.push(listing("/r/src", vec![entry("/r/src/lib", true)]));
    reads.push(listing("/r/src/lib", vec![entry("/r/src/lib/x.rs", false)]));
    assert!(matches!(nav.expand_path_to_node("/r/src/lib/x.rs", true, &reads), NavStep::Done(())));
    let node = nav.get_selected_node().expect("selected");
    assert_eq!(node.path, "/r/src/lib/x.rs");
}

#[test]
fn tree_node_new_takes_the_name_of_the_path() {
    let n = TreeNode::new("/a/b/notes.md".to_string(), false, 3);
    assert_eq!(n.name, "notes.md");
    assert_eq!(n.depth, 3);
    assert!(!n.is_expanded);
    assert!(n.children.is_empty());
    let root = TreeNode::new("/".to_string(), true, 0);
    assert_eq!(root.name, "");
}

#[test]
fn toggle_expand_loads_and_collapses() {
    let mut n = TreeNode::new("/d".to_string(), true, 0);
    let read = DirRead::Entries(vec![entry("/d/z", false), entry("/d/y", true)]);
    let made = n.toggle_expand(&read, true, false, false, 1);
    assert!(n.is_expanded);
    assert_eq!(made.len(), 2);
    assert_eq!(made[0].path, "/d/y");
    assert_eq!(n.children, vec![1, 2]);
    let none = n.toggle_expand(&read, true, false, false, 3);
    assert!(!n.is_expanded);
    assert!(none.is_empty());
    let mut f = TreeNode::new("/d/file".to_string(), false, 0);
    let made = f.toggle_expand(&read, true, false, false, 1);
    assert!(!f.is_expanded);
    assert!(made.is_empty());
}

#[test]
fn toggle_of_a_hidden_node_searches_the_whole_tree() {
    let mut reads = root_reads();
    reads.push(listing("/r/src", vec![entry("/r/src/lib", true)]));
    let mut nav = open(&reads);
    assert!(matches!(nav.toggle_node("/r/src", true, &reads), NavStep::Done(_)));
    assert!(matches!(nav.toggle_node("/r/src", true, &reads), NavStep::Done(_)));
    // /r/src/lib is loaded but not visible: the whole tree is searched.
    match nav.toggle_node("/r/src/lib", true, &reads) {
        NavStep::NeedRead(d) => assert_eq!(d, "/r/src/lib"),
        _ => panic!("expected a read of /r/src/lib"),
    }
    reads.push(listing("/r/src/lib", vec![entry("/r/src/lib/x.rs", false)]));
    assert!(matches!(nav.toggle_node("/r/src/lib", true, &reads), NavStep::Done(None)));
    assert_eq!(visible_paths(&nav).len(), 5);
    assert!(matches!(nav.toggle_node("/r/src", true, &reads), NavStep::Done(_)));
    assert_eq!(
        visible_paths(&nav),
        vec!["/r", "/r/docs", "/r/src", "/r/src/lib", "/r/src/lib/x.rs", "/r/a.md", "/r/b.md"]
    );
}
