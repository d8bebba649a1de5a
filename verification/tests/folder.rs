use rr::sync_v3::index::{diff_root, parse_index, plan_root};
use rr::sync_v3::upload::{entries_for, entry_for};
use rr::sync_v3::{
    check_new_folder, DocumentInfo, FolderBundle, IndexEntry, Listing, RootState, SkippedEntry,
};

const FOLDER: &str = "CollectionType";
const DOC: &str = "DocumentType";
const TRASH: &str = "trash";
const NOW: &str = "1789000000000";
const PARENT_ID: &str = "0e6f2c1a-5b7d-4c3e-9f80-1a2b3c4d5e6f";

fn item(id: &str, name: &str, parent: Option<&str>, doc_type: &str) -> DocumentInfo {
    DocumentInfo {
        id: id.into(),
        visible_name: name.into(),
        doc_type: doc_type.into(),
        parent: parent.map(str::to_owned),
        deleted: false,
    }
}

fn listing(docs: Vec<DocumentInfo>) -> Listing {
    Listing {
        docs,
        skipped: vec![],
    }
}

fn library() -> Listing {
    listing(vec![
        item("top", "Work", None, FOLDER),
        item("mid", "Projects", Some("top"), FOLDER),
        item("old", "Old", Some(TRASH), FOLDER),
        item("low", "Kept", Some("old"), FOLDER),
        item("note", "A note", Some("top"), DOC),
    ])
}

#[test]
fn folder_metadata_is_the_vendor_shape() {
    let folder = FolderBundle::new("f1", "Meeting Notes Q3", "", NOW).unwrap();
    let expected = r#"{
    "createdTime": "1789000000000",
    "lastModified": "1789000000000",
    "new": false,
    "parent": "",
    "pinned": false,
    "source": "",
    "type": "CollectionType",
    "visibleName": "Meeting Notes Q3"
}
"#;
    assert_eq!(folder.metadata_json, expected);
}

#[test]
fn folder_name_is_escaped() {
    let folder = FolderBundle::new("f1", "a\"b\\c\u{1}é", "", NOW).unwrap();
    assert!(folder
        .metadata_json
        .contains("\"visibleName\": \"a\\\"b\\\\c\\u0001é\"\n"));
}

#[test]
fn folder_metadata_sizes_match_three_vendor_folders() {
    let first = FolderBundle::new("f1", "Meeting Notes Q3", "", NOW).unwrap();
    let second = FolderBundle::new("f2", "Drafts", "", NOW).unwrap();
    let nested = FolderBundle::new("f3", "Books", PARENT_ID, NOW).unwrap();
    assert_eq!(first.metadata_json.len(), 220);
    assert_eq!(second.metadata_json.len(), 210);
    assert_eq!(nested.metadata_json.len(), 245);
}

#[test]
fn folder_is_one_metadata_blob() {
    let folder = FolderBundle::new("f1", "Meeting Notes Q3", "", NOW).unwrap();
    let files = folder.files();
    assert_eq!(files.len(), 1);
    assert_eq!(files[0].cloud_name, "f1.metadata");
    assert_eq!(files[0].bytes, folder.metadata_json.as_bytes());
}

#[test]
fn folder_adds_exactly_one_root_line_and_keeps_the_rest() {
    let body = "3\naa:80000000:doc1:4:100\nbb:deadbeef:doc2:2:200\n";
    let (schema, entries) = parse_index(body.as_bytes()).unwrap();
    let root = RootState {
        schema,
        root_hash: "old".into(),
        generation: 7,
        entries,
        body: body.to_string(),
    };
    let folder = FolderBundle::new("f1", "Meeting Notes Q3", "", NOW).unwrap();
    let doc_entries: Vec<IndexEntry> = folder.files().iter().map(entry_for).collect();
    let planned = plan_root(&root, "f1", &doc_entries).unwrap();

    let new_body = String::from_utf8(planned.root_body).unwrap();
    let diff = diff_root(root.schema, &root.body, &new_body);
    assert!(diff.removed.is_empty());
    assert!(diff.order_preserved);
    assert_eq!(diff.new_entries, 3);
    assert_eq!(diff.added.len(), 1);
    assert!(diff.added[0].ends_with(":80000000:f1:1:220"));

    let doc_body = String::from_utf8(planned.doc_body).unwrap();
    let lines: Vec<&str> = doc_body.lines().collect();
    assert_eq!(lines.len(), 2);
    assert_eq!(lines[0], "3");
    assert!(lines[1].ends_with(":0:f1.metadata:0:220"));
    assert_eq!(entries_for(&folder.files()).len(), 1);
}

#[test]
fn new_folder_is_allowed_where_the_name_is_free() {
    let lib = library();
    assert!(check_new_folder(&lib, "Meeting Notes Q3", None).is_ok());
    assert!(check_new_folder(&lib, "Books", Some("mid")).is_ok());
    // The same name elsewhere, or only in the trash, is not a clash.
    assert!(check_new_folder(&lib, "Projects", None).is_ok());
    assert!(check_new_folder(&lib, "Old", None).is_ok());
}

#[test]
fn new_folder_refuses_a_name_already_there() {
    let lib = library();
    assert!(check_new_folder(&lib, "Work", None).is_err());
    assert!(check_new_folder(&lib, "Projects", Some("top")).is_err());
    // A document of that name counts too.
    assert!(check_new_folder(&lib, "A note", Some("top")).is_err());
    assert_eq!(
        check_new_folder(&lib, "Work", None).unwrap_err().message(),
        "mkdir refused: \"Work\" already exists there (top)"
    );
}

#[test]
fn new_folder_refuses_a_parent_the_tablet_does_not_show() {
    let lib = library();
    // Absent, a document, in the trash, and below a trashed folder.
    assert!(check_new_folder(&lib, "X", Some("gone")).is_err());
    assert!(check_new_folder(&lib, "X", Some("note")).is_err());
    assert!(check_new_folder(&lib, "X", Some("old")).is_err());
    assert!(check_new_folder(&lib, "X", Some("low")).is_err());
    let message = |id: &str| check_new_folder(&lib, "X", Some(id)).unwrap_err().message();
    assert_eq!(message("gone"), "mkdir refused: no item with id gone in the listing");
    assert_eq!(message("note"), "mkdir refused: note is not a live folder");
    assert_eq!(message("old"), "mkdir refused: old is in the trash");
    assert_eq!(message("low"), "mkdir refused: old is in the trash");
}

#[test]
fn new_folder_refuses_a_parent_chain_that_loops() {
    let lib = listing(vec![
        item("a", "A", Some("b"), FOLDER),
        item("b", "B", Some("a"), FOLDER),
    ]);
    let err = check_new_folder(&lib, "X", Some("a")).unwrap_err();
    assert!(err.message().contains("loops"));
}

#[test]
fn a_chain_as_long_as_the_listing_is_no_loop() {
    let mut docs = vec![item("d0", "D", None, FOLDER)];
    for i in 1..30 {
        docs.push(item(&format!("d{i}"), "D", Some(&format!("d{}", i - 1)), FOLDER));
    }
    let lib = listing(docs);
    assert!(check_new_folder(&lib, "X", Some("d29")).is_ok());
}

#[test]
fn new_folder_refuses_a_name_that_is_not_one_plain_name() {
    let lib = library();
    for bad in ["", " Lead", "Trail ", "Tab\there", "Work/2026"] {
        assert!(check_new_folder(&lib, bad, None).is_err(), "{bad:?}");
    }
    let message = |name: &str| check_new_folder(&lib, name, None).unwrap_err().message();
    assert_eq!(message(" \u{3000}"), "mkdir refused: the name is empty");
    assert_eq!(message(" Lead"), "mkdir refused: the name starts or ends with a space");
    assert_eq!(message("Tab\there"), "mkdir refused: the name holds a control character");
    assert_eq!(
        message("Work/2026"),
        "mkdir refused: the name holds `/`; give one name, not a path"
    );
}

#[test]
fn new_folder_treats_soft_deleted_items_as_absent() {
    let mut dead = item("dead", "Dead", None, FOLDER);
    dead.deleted = true;
    let mut ghost = item("ghost", "Work", None, FOLDER);
    ghost.deleted = true;
    let lib = listing(vec![dead, ghost]);
    // A deleted folder is no parent, and a deleted item holds no name.
    assert!(check_new_folder(&lib, "X", Some("dead")).is_err());
    assert!(check_new_folder(&lib, "Work", None).is_ok());
}

#[test]
fn new_folder_refuses_an_incomplete_listing() {
    let mut lib = library();
    lib.skipped.push(SkippedEntry {
        id: "s1".into(),
        error: "timeout".into(),
    });
    let err = check_new_folder(&lib, "Meeting Notes Q3", None).unwrap_err();
    assert!(err.message().contains("INCOMPLETE"));
}
