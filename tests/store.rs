use moried::front_matter::{header_range, parse_front_matter, FrontMatter, MetadataKind};
use moried::handlers::{
    delete_note, list_notes, load_note, rejection, save_note, store_rejection, upload_file, Rejection,
};
use moried::models::NoteSave;
use moried::object::ObjectId;
use moried::store::{ListEntry, State, StoreError};

fn store() -> State {
    State::new("Tester <tester@example.com>".to_string())
}

fn paths(entries: &Vec<ListEntry>) -> Vec<String> {
    entries.iter().map(|e| e.path.clone()).collect()
}

#[test]
fn empty_store_lists_nothing() {
    let mut s = store();
    assert!(s.list_documents().unwrap().is_empty());
    assert_eq!(s.load_document("a.md"), Err(StoreError::NotFound));
}

#[test]
fn identical_blobs_share_one_id() {
    let mut s = store();
    let a = s.put_blob(b"same bytes").unwrap();
    let b = s.put_blob(b"same bytes").unwrap();
    assert_eq!(a, b);
    let c = s.put_blob(b"other bytes").unwrap();
    assert_ne!(a, c);
}

#[test]
fn blob_id_is_the_git_object_hash() {
    let mut s = store();
    let id = s.put_blob(b"").unwrap();
    assert_eq!(id, ObjectId { hi: 0xe69de29bb2d1d6434b8b29ae775ad8c2, lo: 0xe48c5391 });
}

#[test]
fn save_then_load_round_trip() {
    let mut s = store();
    let content = "---\ntitle: X\n---\nbody";
    s.save_document("a/b.md", content, "first", 1).unwrap();
    let (bytes, _) = s.load_document("a/b.md").unwrap();
    assert_eq!(bytes, content.as_bytes().to_vec());
    let listing = s.list_documents().unwrap();
    assert_eq!(listing.len(), 1);
    assert_eq!(listing[0].path, "a/b.md");
    let expected: serde_yaml::Value = serde_yaml::from_str("title: X").unwrap();
    match &listing[0].metadata {
        FrontMatter::Parsed(v) => assert_eq!(v, &expected),
        _ => panic!("metadata was not parsed"),
    }
}

#[test]
fn rename_preserves_content() {
    let mut s = store();
    s.save_document("n.md", "hi", "c", 1).unwrap();
    s.rename_document("n.md", "m.md", 2).unwrap();
    assert_eq!(s.load_document("n.md"), Err(StoreError::NotFound));
    let (bytes, _) = s.load_document("m.md").unwrap();
    assert_eq!(bytes, b"hi".to_vec());
}

#[test]
fn rename_of_missing_path_is_not_found_and_changes_nothing() {
    let mut s = store();
    s.save_document("keep.md", "x", "c", 1).unwrap();
    let before = paths(s.list_documents().unwrap());
    assert_eq!(s.rename_document("nope.md", "m.md", 2), Err(StoreError::NotFound));
    assert_eq!(paths(s.list_documents().unwrap()), before);
}

#[test]
fn unclosed_header_lists_without_metadata() {
    let mut s = store();
    s.save_document("u.md", "---\ntitle: X\nbody", "c", 1).unwrap();
    let listing = s.list_documents().unwrap();
    assert_eq!(listing.len(), 1);
    assert_eq!(listing[0].metadata.metadata_kind(), MetadataKind::Absent);
}

#[test]
fn invalid_header_lists_with_error() {
    let mut s = store();
    s.save_document("bad.md", "---\ntitle: [x\n---\nbody", "c", 1).unwrap();
    s.save_document("plain.md", "no header", "c", 2).unwrap();
    let listing = s.list_documents().unwrap();
    assert_eq!(listing.len(), 2);
    match &listing[0].metadata {
        FrontMatter::Malformed(msg) => assert!(!msg.is_empty()),
        _ => panic!("metadata was not reported as malformed"),
    }
    assert_eq!(listing[1].metadata.metadata_kind(), MetadataKind::Absent);
}

#[test]
fn delete_then_list() {
    let mut s = store();
    s.save_document("only.md", "x", "c", 1).unwrap();
    s.delete_document("only.md", 2).unwrap();
    assert!(s.list_documents().unwrap().is_empty());
    assert_eq!(s.delete_document("only.md", 3), Err(StoreError::NotFound));
}

#[test]
fn listing_follows_each_write() {
    let mut s = store();
    s.save_document("a.md", "a", "c", 1).unwrap();
    assert_eq!(paths(s.list_documents().unwrap()), vec!["a.md".to_string()]);
    s.save_document("b.md", "b", "c", 2).unwrap();
    assert_eq!(paths(s.list_documents().unwrap()), vec!["a.md".to_string(), "b.md".to_string()]);
    s.delete_document("a.md", 3).unwrap();
    assert_eq!(paths(s.list_documents().unwrap()), vec!["b.md".to_string()]);
    s.rename_document("b.md", "c.md", 4).unwrap();
    assert_eq!(paths(s.list_documents().unwrap()), vec!["c.md".to_string()]);
}

#[test]
fn saving_a_path_again_overwrites_it() {
    let mut s = store();
    s.save_document("a.md", "one", "c", 1).unwrap();
    s.save_document("a.md", "two", "c", 2).unwrap();
    assert_eq!(s.list_documents().unwrap().len(), 1);
    assert_eq!(s.load_document("a.md").unwrap().0, b"two".to_vec());
}

#[test]
fn upload_stores_every_file() {
    let mut s = store();
    let files = vec![
        ("x.png".to_string(), vec![1u8, 2, 3]),
        ("y.txt".to_string(), b"text".to_vec()),
    ];
    upload_file(&mut s, &files, 1).unwrap();
    assert_eq!(paths(list_notes(&mut s).unwrap()), vec!["x.png".to_string(), "y.txt".to_string()]);
    let (bytes, mime) = load_note(&s, "x.png").unwrap();
    assert_eq!(bytes, vec![1u8, 2, 3]);
    assert_eq!(mime, Some("image/png".to_string()));
    assert_eq!(load_note(&s, "y.txt").unwrap().0, b"text".to_vec());
}

#[test]
fn unknown_extension_has_no_media_type() {
    let mut s = store();
    s.save_document("notes", "x", "c", 1).unwrap();
    assert_eq!(s.load_document("notes").unwrap().1, None);
}

#[test]
fn save_note_dispatches_on_request() {
    let mut s = store();
    let save = NoteSave::Save { content: "hi".to_string(), message: "m".to_string() };
    save_note(&mut s, "a.md", &save, 1).unwrap();
    let rename = NoteSave::Rename { from: "a.md".to_string() };
    save_note(&mut s, "b.md", &rename, 2).unwrap();
    assert_eq!(load_note(&s, "a.md"), Err(StoreError::NotFound));
    assert_eq!(load_note(&s, "b.md").unwrap().0, b"hi".to_vec());
    assert_eq!(delete_note(&mut s, "a.md", 3), Err(StoreError::NotFound));
}

#[test]
fn header_range_finds_the_block() {
    assert_eq!(header_range(b"---\ntitle: X\n---\nbody"), Some((4, 12)));
    assert_eq!(header_range(b"---\n---\nbody"), Some((4, 4)));
    assert_eq!(header_range(b"---\ntitle: X\n"), None);
    assert_eq!(header_range(b"title: X\n---\n"), None);
}

#[test]
fn header_that_is_not_utf8_is_malformed() {
    let fm = parse_front_matter(b"---\n\xff\xfe\n---\nbody");
    assert_eq!(fm.metadata_kind(), MetadataKind::Malformed);
    match fm {
        FrontMatter::Malformed(msg) => assert!(!msg.is_empty()),
        _ => panic!("metadata was not reported as malformed"),
    }
}

#[test]
fn empty_paths_are_refused() {
    let mut s = store();
    assert_eq!(s.save_document("", "x", "c", 1), Err(StoreError::InvalidPath));
    assert_eq!(s.get_head(), None);
    s.save_document("a.md", "x", "c", 2).unwrap();
    let head = s.get_head();
    assert_eq!(s.rename_document("a.md", "", 3), Err(StoreError::InvalidPath));
    let files = vec![("ok".to_string(), vec![1u8]), ("".to_string(), vec![2u8])];
    assert_eq!(s.upload_documents(&files, 4), Err(StoreError::InvalidPath));
    assert_eq!(s.get_head(), head);
    assert_eq!(paths(s.list_documents().unwrap()), vec!["a.md".to_string()]);
    assert_eq!(rejection(store_rejection(StoreError::InvalidPath)), 400);
}

#[test]
fn saving_identical_content_again_still_commits() {
    let mut s = store();
    s.save_document("a.md", "same", "one", 1).unwrap();
    let first = s.get_head().unwrap();
    s.save_document("a.md", "same", "two", 2).unwrap();
    let second = s.get_head().unwrap();
    assert_ne!(first, second);
    let t1 = s.get_commit(first).unwrap().tree;
    let t2 = s.get_commit(second).unwrap().tree;
    assert_eq!(t1, t2);
}

#[test]
fn rejections_map_to_status_codes() {
    assert_eq!(rejection(store_rejection(StoreError::NotFound)), 404);
    assert_eq!(rejection(store_rejection(StoreError::Conflict)), 409);
    assert_eq!(rejection(store_rejection(StoreError::Internal)), 500);
    assert_eq!(rejection(Rejection::MissingAuthorization), 401);
    assert_eq!(rejection(Rejection::Unauthorized), 401);
}

#[test]
fn listing_is_in_path_order() {
    let mut s = store();
    s.save_document("b.md", "b", "c", 1).unwrap();
    s.save_document("a/z.md", "z", "c", 2).unwrap();
    s.save_document("a.md", "a", "c", 3).unwrap();
    assert_eq!(
        paths(s.list_documents().unwrap()),
        vec!["a.md".to_string(), "a/z.md".to_string(), "b.md".to_string()]
    );
}

fn head_message(s: &State) -> Vec<u8> {
    let head = s.get_head().unwrap();
    s.get_commit(head).unwrap().message
}

#[test]
fn commits_carry_their_messages() {
    let mut s = store();
    s.save_document("a.md", "a", "first save", 1).unwrap();
    assert_eq!(head_message(&s), b"first save".to_vec());
    s.rename_document("a.md", "b.md", 2).unwrap();
    assert_eq!(head_message(&s), b"Rename a.md to b.md".to_vec());
    s.delete_document("b.md", 3).unwrap();
    assert_eq!(head_message(&s), b"Delete b.md".to_vec());
    let files = vec![("x".to_string(), vec![1u8]), ("y".to_string(), vec![2u8])];
    s.upload_documents(&files, 4).unwrap();
    assert_eq!(head_message(&s), b"Upload 2 files".to_vec());
    let files: Vec<(String, Vec<u8>)> = (0..12).map(|i| (format!("f{}", i), vec![i as u8])).collect();
    s.upload_documents(&files, 5).unwrap();
    assert_eq!(head_message(&s), b"Upload 12 files".to_vec());
}

#[test]
fn commits_form_a_linear_history() {
    let mut s = store();
    assert_eq!(s.get_head(), None);
    s.save_document("a.md", "a", "one", 1).unwrap();
    let first = s.get_head().unwrap();
    let c1 = s.get_commit(first).unwrap();
    assert_eq!(c1.parent, None);
    assert_eq!(c1.author, "Tester <tester@example.com>");
    assert_eq!(c1.time, 1);
    s.save_document("b.md", "b", "two", 2).unwrap();
    let second = s.get_head().unwrap();
    assert_ne!(first, second);
    let c2 = s.get_commit(second).unwrap();
    assert_eq!(c2.parent, Some(first));
    let tree = s.get_tree(c2.tree).unwrap();
    let names: Vec<String> = tree.iter().map(|e| e.path.clone()).collect();
    assert_eq!(names, vec!["a.md".to_string(), "b.md".to_string()]);
    assert_eq!(s.get_blob(tree[1].id).unwrap(), b"b".to_vec());
    assert_eq!(s.get_blob(second), Err(StoreError::NotFound));
    assert!(s.get_tree(tree[0].id).is_err());
}

#[test]
fn cache_slot_follows_head() {
    let mut s = store();
    s.save_document("a.md", "a", "one", 1).unwrap();
    assert_eq!(s.cached_commit(), None);
    s.list_documents().unwrap();
    let first = s.get_head();
    assert_eq!(s.cached_commit(), Some(first));
    s.save_document("b.md", "b", "two", 2).unwrap();
    assert_eq!(s.cached_commit(), Some(first));
    assert_eq!(s.list_documents().unwrap().len(), 2);
    let second = s.get_head();
    assert_ne!(first, second);
    assert_eq!(s.cached_commit(), Some(second));
}

#[test]
fn same_documents_give_the_same_tree() {
    let mut s = store();
    s.save_document("a.md", "a", "m", 1).unwrap();
    s.save_document("b.md", "b", "m", 2).unwrap();
    let t1 = s.get_commit(s.get_head().unwrap()).unwrap().tree;
    let mut u = store();
    u.save_document("b.md", "b", "m", 1).unwrap();
    u.save_document("a.md", "a", "m", 2).unwrap();
    let t2 = u.get_commit(u.get_head().unwrap()).unwrap().tree;
    assert_eq!(t1, t2);
}

#[test]
fn stored_blob_reads_back() {
    let mut s = store();
    let id = s.put_blob(b"payload").unwrap();
    assert_eq!(s.get_blob(id).unwrap(), b"payload".to_vec());
}

#[test]
fn rename_from_missing_path_to_empty_path_is_not_found() {
    let mut s = store();
    s.save_document("a.md", "x", "c", 1).unwrap();
    assert_eq!(s.rename_document("nope.md", "", 2), Err(StoreError::NotFound));
    assert_eq!(s.rename_document("a.md", "", 3), Err(StoreError::InvalidPath));
}

#[test]
fn empty_header_block_is_still_listed() {
    let mut s = store();
    s.save_document("e.md", "---\n---\nbody", "c", 1).unwrap();
    let listing = s.list_documents().unwrap();
    assert_eq!(listing.len(), 1);
    assert_eq!(listing[0].path, "e.md");
    assert_ne!(listing[0].metadata.metadata_kind(), MetadataKind::Absent);
}

#[test]
fn empty_upload_keeps_the_tree() {
    let mut s = store();
    s.save_document("a.md", "x", "c", 1).unwrap();
    let before = s.get_head().unwrap();
    s.upload_documents(&Vec::new(), 2).unwrap();
    let after = s.get_head().unwrap();
    assert_ne!(before, after);
    assert_eq!(s.get_commit(after).unwrap().message, b"Upload 0 files".to_vec());
    assert_eq!(s.get_commit(after).unwrap().parent, Some(before));
    assert_eq!(s.get_commit(after).unwrap().tree, s.get_commit(before).unwrap().tree);
}
