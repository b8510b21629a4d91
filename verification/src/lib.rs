//! Directory-backed persistence for a note-taking and PDF-annotation
//! application: notes are ordered trees of typed content blocks, PDF
//! documents carry embedded annotations, and each record is stored as one
//! JSON file whose name is the record's id.
//!
//! This crate holds the data model and every decision the stores make:
//! title-collision resolution on create, metadata projection and ordering
//! for listings, the upsert of annotations, the interpretation of a file
//! read as a result or an error, and the file-name and directory-path
//! conventions. The surrounding process performs the actual reads and
//! writes and hands their outcomes to these functions as plain values.

pub mod model;
pub mod notes;
pub mod paths;
pub mod pdfs;
pub mod store;
pub mod text;
