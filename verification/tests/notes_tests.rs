use flow_notes::model::{Block, FileRead, Note, NoteMetadata, StoreError};
use flow_notes::notes::{create_note, list_notes, load_note, metadata_of, resolve_title};

fn meta(id: &str, title: &str, updated_at: &str) -> NoteMetadata {
    NoteMetadata {
        id: id.to_string(),
        title: title.to_string(),
        created_at: "0".to_string(),
        updated_at: updated_at.to_string(),
        tags: None,
    }
}

fn note(id: &str, title: &str, updated_at: &str) -> Note {
    Note {
        id: id.to_string(),
        title: title.to_string(),
        blocks: vec![],
        created_at: "0".to_string(),
        updated_at: updated_at.to_string(),
        tags: None,
    }
}

#[test]
fn create_uses_requested_title_when_free() {
    let existing: Vec<NoteMetadata> = vec![];
    let n = create_note(&"X".to_string(), &existing, 100);
    assert_eq!(n.title, "X");
    assert_eq!(n.id, "note_100");
    assert_eq!(n.created_at, "100");
    assert_eq!(n.updated_at, "100");
    assert!(n.tags.is_none());
}

#[test]
fn create_twice_numbers_the_second_title() {
    let existing: Vec<NoteMetadata> = vec![];
    let first = create_note(&"X".to_string(), &existing, 100);
    assert_eq!(first.title, "X");
    let listed = vec![metadata_of(first)];
    let second = create_note(&"X".to_string(), &listed, 101);
    assert_eq!(second.title, "X 1");
}

#[test]
fn create_skips_to_first_free_number() {
    let existing = vec![meta("a", "X", "1"), meta("b", "X 1", "2"), meta("c", "X 2", "3")];
    let n = create_note(&"X".to_string(), &existing, 100);
    assert_eq!(n.title, "X 3");
}

#[test]
fn resolve_title_numbering_is_exact() {
    // "X 01" is not the fallback "X 1", so the first numbered fallback is free
    let existing = vec![meta("a", "X", "1"), meta("b", "X 01", "2")];
    let r = resolve_title(&"X".to_string(), &existing);
    assert_eq!(r, "X 1");
}

#[test]
fn resolve_title_ignores_unrelated_titles() {
    let existing = vec![meta("a", "Y", "1")];
    let r = resolve_title(&"X".to_string(), &existing);
    assert_eq!(r, "X");
}

#[test]
fn create_produces_one_default_heading_block() {
    let existing: Vec<NoteMetadata> = vec![];
    let n = create_note(&"Plans".to_string(), &existing, 7);
    assert_eq!(n.blocks.len(), 1);
    let b: &Block = &n.blocks[0];
    assert_eq!(b.id, "block_8");
    assert_eq!(b.block_type, "heading");
    assert_eq!(b.content, "Untitled");
    assert!(b.checked.is_none());
    assert!(b.file_path.is_none());
    assert!(b.children.is_none());
    assert_eq!(b.order, 0);
}

#[test]
fn load_missing_note_is_not_found() {
    let r = load_note(FileRead::Missing);
    assert_eq!(r, Err(StoreError::NotFound));
    assert_ne!(r, Err(StoreError::Io));
}

#[test]
fn load_unreadable_note_is_io_error() {
    assert_eq!(load_note(FileRead::Unreadable), Err(StoreError::Io));
}

#[test]
fn load_malformed_note_is_parse_error() {
    assert_eq!(load_note(FileRead::Malformed), Err(StoreError::Parse));
}

#[test]
fn load_returns_the_parsed_note_unchanged() {
    let n = note("note_1", "A", "5");
    let expected = note("note_1", "A", "5");
    assert_eq!(load_note(FileRead::Parsed(n)), Ok(expected));
}

#[test]
fn list_orders_by_updated_at_descending() {
    let reads = vec![
        FileRead::Parsed(note("a", "A", "100")),
        FileRead::Parsed(note("b", "B", "300")),
        FileRead::Parsed(note("c", "C", "200")),
    ];
    let listed = list_notes(reads).unwrap();
    let updated: Vec<&str> = listed.iter().map(|m| m.updated_at.as_str()).collect();
    assert_eq!(updated, vec!["300", "200", "100"]);
    let ids: Vec<&str> = listed.iter().map(|m| m.id.as_str()).collect();
    assert_eq!(ids, vec!["b", "c", "a"]);
}

#[test]
fn list_skips_malformed_files_and_keeps_the_rest() {
    let reads = vec![
        FileRead::Malformed,
        FileRead::Parsed(note("a", "A", "2")),
        FileRead::Parsed(note("b", "B", "1")),
    ];
    let listed = list_notes(reads).unwrap();
    assert_eq!(listed.len(), 2);
    assert_eq!(listed[0].id, "a");
    assert_eq!(listed[1].id, "b");
}

#[test]
fn list_fails_when_a_file_cannot_be_read() {
    let reads = vec![FileRead::Parsed(note("a", "A", "2")), FileRead::Unreadable];
    assert_eq!(list_notes(reads), Err(StoreError::Io));
}

#[test]
fn list_of_empty_directory_is_empty() {
    let listed = list_notes(vec![]).unwrap();
    assert!(listed.is_empty());
}

#[test]
fn listing_projects_every_field_but_blocks() {
    let mut n = note("a", "A", "9");
    n.tags = Some(vec!["work".to_string()]);
    n.blocks = vec![Block {
        id: "b1".to_string(),
        block_type: "paragraph".to_string(),
        content: "hello".to_string(),
        checked: None,
        file_path: None,
        children: None,
        order: 0,
    }];
    let m = metadata_of(n);
    assert_eq!(m.id, "a");
    assert_eq!(m.title, "A");
    assert_eq!(m.created_at, "0");
    assert_eq!(m.updated_at, "9");
    assert_eq!(m.tags, Some(vec!["work".to_string()]));
}
