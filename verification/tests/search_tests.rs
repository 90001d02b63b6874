use file_browser_core::search::DirEntry;
use file_browser_core::search::DirTree;
use file_browser_core::search::SearchState;
use file_browser_core::search::search_tree;

fn entry(name: &str, path: &str, is_dir: bool) -> DirEntry {
    DirEntry { name: name.to_string(), path: path.to_string(), is_dir }
}

#[test]
fn no_match_returns_empty_ok() {
    let mut tree = DirTree::new();
    assert!(tree.add_dir(
        "/r".to_string(),
        vec![entry("alpha.txt", "/r/alpha.txt", false), entry("beta.txt", "/r/beta.txt", false)],
    ));
    let r = search_tree(&tree, "/r".to_string(), "zzz");
    let results = r.unwrap();
    assert_eq!(results.len(), 0);
}

#[test]
fn match_is_case_insensitive() {
    let mut tree = DirTree::new();
    assert!(tree.add_dir(
        "/r".to_string(),
        vec![entry("Report.TXT", "/r/Report.TXT", false), entry("notes.md", "/r/notes.md", false)],
    ));
    let results = search_tree(&tree, "/r".to_string(), "report").unwrap();
    assert_eq!(results.len(), 1);
    assert_eq!(results[0].name, "Report.TXT");
    assert_eq!(results[0].path, "/r/Report.TXT");
    assert!(!results[0].is_directory);
}

#[test]
fn term_is_lowercased_too() {
    let mut tree = DirTree::new();
    assert!(tree.add_dir(
        "/r".to_string(),
        vec![entry("foo.txt", "/r/foo.txt", false)],
    ));
    let results = search_tree(&tree, "/r".to_string(), "FOO").unwrap();
    assert_eq!(results.len(), 1);
    assert_eq!(results[0].name, "foo.txt");
}

#[test]
fn breadth_first_order() {
    let mut tree = DirTree::new();
    assert!(tree.add_dir(
        "/a".to_string(),
        vec![entry("foo.txt", "/a/foo.txt", false), entry("sub", "/a/sub", true)],
    ));
    assert!(tree.add_dir(
        "/a/sub".to_string(),
        vec![entry("foo2.txt", "/a/sub/foo2.txt", false)],
    ));
    let results = search_tree(&tree, "/a".to_string(), "foo").unwrap();
    assert_eq!(results.len(), 2);
    assert_eq!(results[0].name, "foo.txt");
    assert_eq!(results[1].name, "foo2.txt");
}

#[test]
fn empty_term_reports_every_entry_once() {
    let mut tree = DirTree::new();
    assert!(tree.add_dir(
        "/r".to_string(),
        vec![entry("a.txt", "/r/a.txt", false), entry("d", "/r/d", true)],
    ));
    assert!(tree.add_dir(
        "/r/d".to_string(),
        vec![entry("b.txt", "/r/d/b.txt", false)],
    ));
    let results = search_tree(&tree, "/r".to_string(), "").unwrap();
    assert_eq!(results.len(), 3);
    assert_eq!(results[0].path, "/r/a.txt");
    assert_eq!(results[1].path, "/r/d");
    assert_eq!(results[2].path, "/r/d/b.txt");
}

#[test]
fn unreadable_subdir_fails_with_no_results() {
    let mut tree = DirTree::new();
    assert!(tree.add_dir(
        "/r".to_string(),
        vec![entry("match.txt", "/r/match.txt", false), entry("locked", "/r/locked", true)],
    ));
    // "/r/locked" has no listing: it counts as unreadable.
    let r = search_tree(&tree, "/r".to_string(), "match");
    let e = r.err().expect("search must fail on an unreadable directory");
    assert_eq!(e.path, "/r/locked");
    assert_eq!(e.message(), "cannot read directory: /r/locked");
}

#[test]
fn unreadable_root_fails() {
    let tree = DirTree::new();
    let r = search_tree(&tree, "/nowhere".to_string(), "x");
    let e = r.err().expect("search must fail on an unreadable root");
    assert_eq!(e.path, "/nowhere");
}

#[test]
fn matching_dir_is_reported_and_expanded() {
    let mut tree = DirTree::new();
    assert!(tree.add_dir(
        "/r".to_string(),
        vec![entry("photos", "/r/photos", true)],
    ));
    assert!(tree.add_dir(
        "/r/photos".to_string(),
        vec![entry("photo1.jpg", "/r/photos/photo1.jpg", false)],
    ));
    let results = search_tree(&tree, "/r".to_string(), "photo").unwrap();
    assert_eq!(results.len(), 2);
    assert_eq!(results[0].name, "photos");
    assert!(results[0].is_directory);
    assert_eq!(results[1].name, "photo1.jpg");
    assert!(!results[1].is_directory);
}

#[test]
fn flat_tree_keeps_listing_order() {
    let mut tree = DirTree::new();
    assert!(tree.add_dir(
        "/r".to_string(),
        vec![
            entry("zebra-x.txt", "/r/zebra-x.txt", false),
            entry("other.txt", "/r/other.txt", false),
            entry("apple-x.txt", "/r/apple-x.txt", false),
        ],
    ));
    let results = search_tree(&tree, "/r".to_string(), "-x").unwrap();
    assert_eq!(results.len(), 2);
    assert_eq!(results[0].name, "zebra-x.txt");
    assert_eq!(results[1].name, "apple-x.txt");
}

#[test]
fn cyclic_listing_still_terminates() {
    let mut tree = DirTree::new();
    assert!(tree.add_dir(
        "/a".to_string(),
        vec![entry("sub", "/a/sub", true)],
    ));
    assert!(tree.add_dir(
        "/a/sub".to_string(),
        vec![entry("back", "/a", true)],
    ));
    let results = search_tree(&tree, "/a".to_string(), "").unwrap();
    assert_eq!(results.len(), 2);
    assert_eq!(results[0].path, "/a/sub");
    assert_eq!(results[1].path, "/a");
}

#[test]
fn duplicate_dir_listing_is_refused() {
    let mut tree = DirTree::new();
    assert!(tree.add_dir("/r".to_string(), vec![]));
    assert!(!tree.add_dir("/r".to_string(), vec![entry("x", "/r/x", false)]));
    let results = search_tree(&tree, "/r".to_string(), "").unwrap();
    assert_eq!(results.len(), 0);
}

#[test]
fn search_state_drives_step_by_step() {
    let mut st = SearchState::new("/r".to_string(), "txt");
    let first = st.take_next().expect("the root must be pending");
    assert_eq!(first, "/r");
    st.expand(&vec![
        entry("a.txt", "/r/a.txt", false),
        entry("d", "/r/d", true),
    ]);
    let second = st.take_next().expect("the subdirectory must be pending");
    assert_eq!(second, "/r/d");
    st.expand(&vec![entry("b.txt", "/r/d/b.txt", false)]);
    assert!(st.take_next().is_none());
    let results = st.into_results();
    assert_eq!(results.len(), 2);
    assert_eq!(results[0].path, "/r/a.txt");
    assert_eq!(results[1].path, "/r/d/b.txt");
}
