use flow_notes::model::StoreError;
use flow_notes::paths::{notes_dir_path, pdfs_dir_path, store_dir_path};
use flow_notes::store::finish_delete;
use flow_notes::text::{is_json_file_name, record_file_name, str_lex_le, u64_to_string};

#[test]
fn delete_succeeds_when_the_file_was_removed() {
    assert_eq!(finish_delete(false), Ok(()));
}

#[test]
fn delete_twice_succeeds_both_times() {
    // the second delete finds nothing to remove, which is still success
    assert_eq!(finish_delete(false), Ok(()));
    assert_eq!(finish_delete(false), Ok(()));
}

#[test]
fn delete_reports_io_error_when_removal_fails() {
    assert_eq!(finish_delete(true), Err(StoreError::Io));
}

#[test]
fn error_messages_name_each_failure() {
    assert_eq!(StoreError::Config.message(), "Failed to get app data directory");
    assert_eq!(StoreError::Io.message(), "File operation failed");
    assert_eq!(StoreError::NotFound.message(), "Record not found");
    assert_eq!(StoreError::Parse.message(), "Failed to parse record");
}

#[test]
fn decimal_rendering_matches_formatting() {
    assert_eq!(u64_to_string(0), "0");
    assert_eq!(u64_to_string(7), "7");
    assert_eq!(u64_to_string(1234567890), "1234567890");
    assert_eq!(u64_to_string(u64::MAX), format!("{}", u64::MAX));
}

#[test]
fn record_file_names_append_the_extension() {
    assert_eq!(record_file_name("note_100"), "note_100.json");
    assert_eq!(record_file_name("pdf_42"), "pdf_42.json");
}

#[test]
fn json_name_convention() {
    assert!(is_json_file_name("note_100.json"));
    assert!(is_json_file_name("a.b.json"));
    assert!(!is_json_file_name(".json"));
    assert!(!is_json_file_name("note_100.txt"));
    assert!(!is_json_file_name("json"));
    assert!(!is_json_file_name(""));
}

#[test]
fn lexicographic_comparison_on_timestamps() {
    assert!(str_lex_le("100", "200"));
    assert!(!str_lex_le("300", "200"));
    assert!(str_lex_le("200", "200"));
    assert!(str_lex_le("", "1"));
    assert!(str_lex_le("19", "190"));
}

#[test]
fn lexicographic_comparison_by_code_point() {
    assert!(str_lex_le("apple", "banana"));
    assert!(str_lex_le("a", "\u{e9}"));
    assert!(!str_lex_le("\u{e9}b", "\u{e9}a"));
    assert!(str_lex_le("n\u{e4}chste", "n\u{e4}chste"));
}

#[test]
fn store_directories_live_under_the_data_root() {
    match store_dir_path("notes") {
        Ok(p) => assert!(p.ends_with("/flow-notes/notes")),
        Err(e) => assert_eq!(e, StoreError::Config),
    }
    match notes_dir_path() {
        Ok(p) => assert!(p.ends_with("/flow-notes/notes")),
        Err(e) => assert_eq!(e, StoreError::Config),
    }
    match pdfs_dir_path() {
        Ok(p) => assert!(p.ends_with("/flow-notes/pdfs")),
        Err(e) => assert_eq!(e, StoreError::Config),
    }
}
