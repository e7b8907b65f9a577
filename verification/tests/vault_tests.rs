use rusty_notes::vault::{
    cache_keeps, content_source, is_hidden, is_note_file, moved_buffer, note_rel_path, set_buffer_text, sort_notes, Buffer,
    ContentSource, NoteEntry,
};
use std::path::{Path, PathBuf};

#[test]
fn note_files_are_markdown_and_not_hidden() {
    assert!(is_note_file(Path::new("/v/a.md")));
    assert!(is_note_file(Path::new("/v/B.MD")));
    assert!(!is_note_file(Path::new("/v/.secret.md")));
    assert!(!is_note_file(Path::new("/v/notes.txt")));
    assert!(!is_note_file(Path::new("/v/md")));
}

#[test]
fn note_paths_are_checked() {
    assert_eq!(note_rel_path("/ideas/new.md"), Some("ideas/new.md"));
    assert_eq!(note_rel_path("a.md"), Some("a.md"));
    assert_eq!(note_rel_path("///"), None);
    assert_eq!(note_rel_path(""), None);
    assert_eq!(note_rel_path("a/../b.md"), None);
    assert_eq!(note_rel_path(".."), None);
    assert_eq!(note_rel_path("a/..b/c.md"), Some("a/..b/c.md"));
}

#[test]
fn notes_are_sorted_by_relative_path() {
    let e = |r: &str| NoteEntry { rel: r.to_string(), abs: PathBuf::from(format!("/v/{}", r)) };
    let sorted = sort_notes(vec![e("sub/b.md"), e("a.md"), e("B.md")]);
    let rels: Vec<_> = sorted.iter().map(|n| n.rel.clone()).collect();
    assert_eq!(rels, vec!["B.md", "a.md", "sub/b.md"]);
}

#[test]
fn dot_names_are_hidden() {
    assert!(is_hidden(Path::new("/v/.git")));
    assert!(is_hidden(Path::new("/v/.secret.md")));
    assert!(!is_hidden(Path::new("/v/sub")));
    assert!(!is_hidden(Path::new("/v/a.md")));
    assert!(!is_hidden(Path::new("/")));
}

#[test]
fn equal_paths_keep_their_order() {
    let e = |r: &str, a: &str| NoteEntry { rel: r.to_string(), abs: PathBuf::from(a) };
    let sorted = sort_notes(vec![e("b.md", "/1"), e("a.md", "/2"), e("b.md", "/3"), e("a.md", "/4")]);
    let abs: Vec<_> = sorted.iter().map(|n| n.abs.clone()).collect();
    assert_eq!(abs, vec![PathBuf::from("/2"), PathBuf::from("/4"), PathBuf::from("/1"), PathBuf::from("/3")]);
}

#[test]
fn content_comes_from_buffer_then_fresh_cache_then_disk() {
    assert_eq!(content_source(true, Some(5), 9), ContentSource::Buffer);
    assert_eq!(content_source(false, Some(9), 9), ContentSource::Cache);
    assert_eq!(content_source(false, Some(5), 9), ContentSource::Disk);
    assert_eq!(content_source(false, None, 0), ContentSource::Disk);
    assert!(cache_keeps(9, Some(9)));
    assert!(!cache_keeps(5, Some(9)));
    assert!(!cache_keeps(9, None));
}

#[test]
fn a_renamed_note_keeps_its_buffer() {
    let b = Buffer { path: PathBuf::from("/v/a.md"), text: "hi".to_string(), dirty: true };
    let n = moved_buffer(Some(b), PathBuf::from("/v/b.md")).unwrap();
    assert_eq!(n.path, PathBuf::from("/v/b.md"));
    assert_eq!(n.text, "hi");
    assert!(n.dirty);
    assert!(moved_buffer(None, PathBuf::from("/v/b.md")).is_none());
}

#[test]
fn editing_a_buffer_marks_it_unsaved() {
    let mut b = Buffer { path: PathBuf::from("/v/a.md"), text: "old".to_string(), dirty: false };
    set_buffer_text(&mut b, "new".to_string());
    assert_eq!(b.text, "new");
    assert!(b.dirty);
    assert_eq!(b.path, PathBuf::from("/v/a.md"));
}
