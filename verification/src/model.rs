//! The record types the stores persist, and the error taxonomy every
//! operation reports through.

use vstd::prelude::*;

verus! {

/// How a store operation can fail.
///
/// `NotFound` is distinct from `Io` so that a caller can render a
/// "not found" answer rather than a generic failure; `Parse` marks a file
/// whose bytes are not a record; `Config` marks a platform whose
/// application-data directory cannot be determined.
#[derive(Debug, Clone, Copy, PartialEq, Eq, Structural)]
pub enum StoreError {
    Config,
    Io,
    NotFound,
    Parse,
}

impl StoreError {
    /// The short human-readable description each failure surfaces.
    pub open spec fn spec_message(self) -> Seq<char> {
        match self {
            StoreError::Config => "Failed to get app data directory"@,
            StoreError::Io => "File operation failed"@,
            StoreError::NotFound => "Record not found"@,
            StoreError::Parse => "Failed to parse record"@,
        }
    }

    pub fn message(&self) -> (r: &'static str)
        ensures
            r@ == self.spec_message(),
    {
        match self {
            StoreError::Config => "Failed to get app data directory",
            StoreError::Io => "File operation failed",
            StoreError::NotFound => "Record not found",
            StoreError::Parse => "Failed to parse record",
        }
    }
}

/// A node in a note's content tree. `children` is absent on a leaf;
/// `checked` is meaningful only for checklist blocks and `file_path` only
/// for file-reference blocks. Siblings display in ascending `order`.
#[derive(Debug, PartialEq)]
pub struct Block {
    pub id: String,
    pub block_type: String,
    pub content: String,
    pub checked: Option<bool>,
    pub file_path: Option<String>,
    pub children: Option<Vec<Block>>,
    pub order: i32,
}

/// A document: an id (also the storage file-name stem), a display title,
/// the top-level blocks, string-encoded Unix-second timestamps, and an
/// optional set of tags.
#[derive(Debug, PartialEq)]
pub struct Note {
    pub id: String,
    pub title: String,
    pub blocks: Vec<Block>,
    pub created_at: String,
    pub updated_at: String,
    pub tags: Option<Vec<String>>,
}

/// The projection of a `Note` that listings return: every field but the
/// blocks.
#[derive(Debug, Clone, PartialEq)]
pub struct NoteMetadata {
    pub id: String,
    pub title: String,
    pub created_at: String,
    pub updated_at: String,
    pub tags: Option<Vec<String>>,
}

/// A page-relative annotation rectangle, `[x, y, width, height]`. The
/// store never interprets the coordinates; each is carried as the bit
/// pattern of the frontend's IEEE-754 double, so a value round-trips
/// exactly.
#[derive(Debug, Clone, Copy, PartialEq, Eq, Structural)]
pub struct AnnotationRect {
    pub x: u64,
    pub y: u64,
    pub width: u64,
    pub height: u64,
}

/// One annotation embedded in a PDF document. `annotation_type` is an
/// open discriminator (highlight, comment, drawing, or a tag this store
/// has not seen); unknown tags pass through unrejected.
#[derive(Debug, Clone, PartialEq)]
pub struct PDFAnnotation {
    pub id: String,
    pub annotation_type: String,
    pub content: Option<String>,
    pub page: i32,
    pub rect: AnnotationRect,
    pub color: Option<String>,
}

/// A tracked PDF file: metadata about the underlying file (which this
/// store does not manage) and the embedded annotations.
#[derive(Debug, Clone, PartialEq)]
pub struct PDFDocument {
    pub id: String,
    pub name: String,
    pub path: String,
    pub pages: i32,
    pub created_at: String,
    pub updated_at: String,
    pub annotations: Option<Vec<PDFAnnotation>>,
}

/// What reading one record file yielded, as the surrounding process
/// reports it: the file is absent, it could not be read, its contents do
/// not parse as a record, or it parsed to `T`.
#[derive(Debug, Clone, PartialEq)]
pub enum FileRead<T> {
    Missing,
    Unreadable,
    Malformed,
    Parsed(T),
}

/// Whether some file in a directory scan could not be read at all (as
/// opposed to read but not parsed).
pub open spec fn any_unreadable<T>(reads: Seq<FileRead<T>>) -> bool {
    exists|i: int| 0 <= i < reads.len() && reads[i] is Unreadable
}

/// Dropping an outcome that is not `Unreadable` leaves `any_unreadable`
/// unchanged.
pub proof fn lemma_any_unreadable_drop_last<T>(reads: Seq<FileRead<T>>)
    requires
        reads.len() > 0,
        !(reads.last() is Unreadable),
    ensures
        any_unreadable(reads) == any_unreadable(reads.drop_last()),
{
    if any_unreadable(reads) {
        let i = choose|i: int| 0 <= i < reads.len() && reads[i] is Unreadable;
        assert(i < reads.len() - 1);
        assert(reads.drop_last()[i] is Unreadable);
    }
    if any_unreadable(reads.drop_last()) {
        let i = choose|i: int| 0 <= i < reads.len() - 1 && reads.drop_last()[i] is Unreadable;
        assert(reads[i] is Unreadable);
    }
}

} // verus!
