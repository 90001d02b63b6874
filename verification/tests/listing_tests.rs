use file_browser_core::favorites::FavoriteFolder;
use file_browser_core::listing::make_file_nodes;
use file_browser_core::search::DirEntry;
use file_browser_core::shell::OsKind;
use file_browser_core::shell::opener_program;

#[test]
fn file_nodes_keep_order_and_classification() {
    let entries = vec![
        DirEntry { name: "docs".to_string(), path: "/r/docs".to_string(), is_dir: true },
        DirEntry { name: "a.txt".to_string(), path: "/r/a.txt".to_string(), is_dir: false },
    ];
    let nodes = make_file_nodes(&entries);
    assert_eq!(nodes.len(), 2);
    assert_eq!(nodes[0].name, "docs");
    assert_eq!(nodes[0].path, "/r/docs");
    assert!(nodes[0].is_directory);
    assert!(nodes[0].children.is_none());
    assert_eq!(nodes[1].name, "a.txt");
    assert!(!nodes[1].is_directory);
    assert!(nodes[1].children.is_none());
}

#[test]
fn empty_listing_gives_empty_nodes() {
    let nodes = make_file_nodes(&Vec::new());
    assert_eq!(nodes.len(), 0);
}

#[test]
fn opener_per_system() {
    assert_eq!(opener_program(OsKind::Windows), Some("explorer"));
    assert_eq!(opener_program(OsKind::MacOs), Some("open"));
    assert_eq!(opener_program(OsKind::Linux), Some("xdg-open"));
    assert_eq!(opener_program(OsKind::Other), None);
}

#[test]
fn favorite_keeps_its_fields() {
    let f = FavoriteFolder::new("Home".to_string(), "/home/user".to_string());
    assert_eq!(f.name, "Home");
    assert_eq!(f.path, "/home/user");
}
