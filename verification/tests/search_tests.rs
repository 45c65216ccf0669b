use krust::tree::navigation::{DirListing, NavStep, Navigation};
use krust::tree::search::{contains_text, deep_search_visit, Search, SearchMessage, SearchResult};
use krust::tree::tree_node::{DirEntryInfo, DirEntryRead, DirRead};

fn entry(path: &str, is_dir: bool) -> DirEntryRead {
    DirEntryRead::Entry(DirEntryInfo { path: path.to_string(), is_dir, is_symlink: false })
}

fn nav() -> Navigation {
    let reads = vec![DirListing {
        dir: "/r".to_string(),
        is_dir: true,
        read: DirRead::Entries(vec![
            entry("/r/Notes.md", false),
            entry("/r/src", true),
            entry("/r/todo.txt", false),
        ]),
    }];
    match Navigation::new("/r".to_string(), true, false, false, &reads) {
        NavStep::Done(n) => n,
        _ => panic!(),
    }
}

fn result(path: &str, score: Option<i64>) -> SearchMessage {
    SearchMessage::Result(path.to_string(), false, score, score.map(|_| vec![0]))
}

#[test]
fn typing_a_query_and_fuzzy_mode() {
    let mut s = Search::new();
    s.enter_mode();
    assert!(s.mode);
    s.add_char('n');
    s.add_char('o');
    assert_eq!(s.query, "no");
    assert!(!s.fuzzy_mode);
    assert_eq!(s.get_search_query(), "no");
    s.backspace();
    s.backspace();
    s.backspace();
    assert_eq!(s.query, "");
    s.add_char('/');
    assert!(s.fuzzy_mode);
    assert_eq!(s.get_search_query(), "");
    s.add_char('t');
    assert_eq!(s.get_search_query(), "t");
    s.exit_mode();
    assert!(!s.mode);
    assert_eq!(s.query, "");
    assert!(!s.fuzzy_mode);
}

#[test]
fn empty_search_text_closes_the_results() {
    let mut s = Search::new();
    s.show_results = true;
    s.add_char('/');
    assert!(s.perform_search(&nav(), true, false, false).is_none());
    assert!(!s.show_results);
    assert!(!s.is_searching);
    assert!(s.results.is_empty());
}

#[test]
fn plain_search_matches_lowercased_names_among_loaded_nodes() {
    let mut s = Search::new();
    s.enter_mode();
    for c in "NOT".chars() {
        s.add_char(c);
    }
    let deep = s.perform_search(&nav(), true, false, false).expect("a deep search to start");
    assert_eq!(deep.root, "/r");
    assert_eq!(deep.query, "not");
    assert!(!deep.fuzzy);
    let paths: Vec<&str> = s.results.iter().map(|r| r.path.as_str()).collect();
    assert_eq!(paths, vec!["/r/Notes.md"]);
    assert!(s.results[0].score.is_none());
    assert!(s.show_results && s.focus_on_results && s.is_searching && !s.mode);
    assert_eq!(s.get_selected_result(), Some("/r/Notes.md".to_string()));
}

#[test]
fn directories_only_when_files_are_hidden() {
    let mut s = Search::new();
    s.add_char('r');
    s.perform_search(&nav(), false, false, false);
    let paths: Vec<&str> = s.results.iter().map(|r| r.path.as_str()).collect();
    assert_eq!(paths, vec!["/r", "/r/src"]);
}

#[test]
fn fuzzy_search_gives_scores_and_positions() {
    let mut s = Search::new();
    for c in "/TDO".chars() {
        s.add_char(c);
    }
    let deep = s.perform_search(&nav(), true, false, false).unwrap();
    assert!(deep.fuzzy);
    assert_eq!(deep.query, "tdo");
    assert_eq!(s.results.len(), 1);
    assert_eq!(s.results[0].path, "/r/todo.txt");
    assert!(s.results[0].score.is_some());
    let ix = s.results[0].match_indices.clone().expect("positions of a fuzzy match");
    assert_eq!(ix.len(), 3);
    assert!(ix[0] < ix[1] && ix[1] < ix[2]);
}

#[test]
fn poll_drops_repeated_paths_and_counts_progress() {
    let mut s = Search::new();
    s.is_searching = true;
    assert!(!s.poll_results(Vec::new()));
    let changed = s.poll_results(vec![result("/a", None), result("/a/", None), result("/b", None)]);
    assert!(changed);
    let paths: Vec<&str> = s.results.iter().map(|r| r.path.as_str()).collect();
    assert_eq!(paths, vec!["/a", "/b"]);
    assert!(!s.poll_results(vec![result("/b", None)]));
    assert!(s.poll_results(vec![SearchMessage::Progress(200)]));
    assert_eq!(s.scanned_count, 200);
    assert!(s.is_searching);
    assert!(s.poll_results(vec![SearchMessage::Done]));
    assert!(!s.is_searching);
}

#[test]
fn done_sorts_fuzzy_results_by_score_keeping_ties_in_order() {
    let mut s = Search::new();
    s.add_char('/');
    s.add_char('x');
    s.is_searching = true;
    s.poll_results(vec![
        result("/low", Some(1)),
        result("/none", None),
        result("/high", Some(9)),
        result("/tie1", Some(5)),
        result("/tie2", Some(5)),
    ]);
    let order: Vec<&str> = s.results.iter().map(|r| r.path.as_str()).collect();
    assert_eq!(order, vec!["/low", "/none", "/high", "/tie1", "/tie2"]);
    s.poll_results(vec![SearchMessage::Done]);
    let order: Vec<&str> = s.results.iter().map(|r| r.path.as_str()).collect();
    assert_eq!(order, vec!["/high", "/tie1", "/tie2", "/low", "/none"]);
}

#[test]
fn plain_results_are_not_sorted() {
    let mut s = Search::new();
    s.add_char('x');
    s.poll_results(vec![result("/a", Some(1)), result("/b", Some(9)), SearchMessage::Done]);
    let order: Vec<&str> = s.results.iter().map(|r| r.path.as_str()).collect();
    assert_eq!(order, vec!["/a", "/b"]);
}

#[test]
fn selection_moves_and_closing_resets() {
    let mut s = Search::new();
    s.results = vec![
        SearchResult { path: "/a".to_string(), is_dir: false, score: None, match_indices: None },
        SearchResult { path: "/b".to_string(), is_dir: true, score: None, match_indices: None },
    ];
    s.move_up();
    assert_eq!(s.selected, 0);
    s.move_down();
    s.move_down();
    assert_eq!(s.selected, 1);
    assert_eq!(s.get_selected_result(), Some("/b".to_string()));
    s.show_results = true;
    s.focus_on_results = true;
    s.is_searching = true;
    s.scanned_count = 7;
    s.close_results();
    assert!(s.results.is_empty());
    assert_eq!(s.selected, 0);
    assert!(!s.show_results && !s.focus_on_results && !s.is_searching);
    assert_eq!(s.scanned_count, 0);
    assert_eq!(s.get_selected_result(), None);
}

#[test]
fn contains_text_finds_runs() {
    assert!(contains_text("notes.md", "tes"));
    assert!(contains_text("notes.md", ""));
    assert!(!contains_text("notes.md", "tse"));
    assert!(!contains_text("no", "not"));
    assert!(contains_text("ééa", "éa"));
}

#[test]
fn deep_search_steps() {
    // A directory that matches: reported, counted and walked.
    let v = deep_search_visit("/r/notes", false, true, "not", true, false, false, false, 0);
    assert!(matches!(v.result, Some(SearchMessage::Result(ref p, true, None, None)) if p == "/r/notes"));
    assert!(v.descend);
    assert_eq!(v.scanned, 1);
    assert_eq!(v.progress, None);
    // Every hundredth directory is reported.
    let v = deep_search_visit("/r/x", false, true, "zzz", true, false, false, false, 99);
    assert!(v.result.is_none());
    assert_eq!(v.progress, Some(100));
    // Hidden names, links and files (when hidden) are passed over.
    let v = deep_search_visit("/r/.git", false, true, "git", true, false, false, false, 5);
    assert!(v.result.is_none() && !v.descend && v.scanned == 5);
    let v = deep_search_visit("/r/.git", false, true, "git", true, true, false, false, 5);
    assert!(v.result.is_some() && v.descend);
    let v = deep_search_visit("/r/l", true, true, "l", true, false, false, false, 5);
    assert!(v.result.is_none() && !v.descend);
    let v = deep_search_visit("/r/l", true, true, "l", true, false, true, false, 5);
    assert!(v.result.is_some() && v.descend);
    let v = deep_search_visit("/r/f.md", false, false, "f", false, false, false, false, 5);
    assert!(v.result.is_none() && !v.descend);
    let v = deep_search_visit("/r/F.md", false, false, "f.", true, false, false, false, 5);
    assert!(v.result.is_some() && !v.descend && v.scanned == 5);
}
