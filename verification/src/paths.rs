//! Where the stores keep their files: one directory per store under the
//! platform's application-data root. These functions compute the paths;
//! the surrounding process creates an absent directory (with its
//! parents) before first use, and repeated creation is a cheap no-op.

use vstd::prelude::*;
use vstd::string::StringExecFns;
use crate::model::StoreError;

verus! {

/// Relies on dirs::data_dir for the platform's application-data
/// directory. The path comes back as a string; none when the platform
/// defines no such directory, or its path is not Unicode.
#[verifier::external_body]
fn platform_data_dir() -> (r: Option<String>) {
    match dirs::data_dir() {
        Some(path) => match path.to_str() {
            Some(s) => Some(s.to_string()),
            None => None,
        },
        None => None,
    }
}

/// The directory a store keeps its files in:
/// `<data-dir>/flow-notes/<store>`, joined with forward slashes. Fails
/// with the configuration error exactly when no application-data
/// directory came back.
pub fn store_dir_path(store: &str) -> (r: Result<String, StoreError>)
    ensures
        match r {
            Ok(p) => exists|base: Seq<char>| p@ == base + "/flow-notes/"@ + store@,
            Err(e) => e == StoreError::Config,
        },
{
    match platform_data_dir() {
        None => Err(StoreError::Config),
        Some(base) => {
            let ghost base_view = base@;
            let mut p = base;
            p.append("/flow-notes/");
            p.append(store);
            proof {
                assert(p@ == base_view + "/flow-notes/"@ + store@);
            }
            Ok(p)
        },
    }
}

/// The notes directory: `<data-dir>/flow-notes/notes`.
pub fn notes_dir_path() -> (r: Result<String, StoreError>)
    ensures
        match r {
            Ok(p) => exists|base: Seq<char>| p@ == base + "/flow-notes/"@ + "notes"@,
            Err(e) => e == StoreError::Config,
        },
{
    store_dir_path("notes")
}

/// The pdfs directory: `<data-dir>/flow-notes/pdfs`.
pub fn pdfs_dir_path() -> (r: Result<String, StoreError>)
    ensures
        match r {
            Ok(p) => exists|base: Seq<char>| p@ == base + "/flow-notes/"@ + "pdfs"@,
            Err(e) => e == StoreError::Config,
        },
{
    store_dir_path("pdfs")
}

} // verus!
