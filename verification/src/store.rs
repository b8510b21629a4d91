//! A model of one directory-backed store: the directory as a map from id
//! to the record parsed from `<id>.json`. Each operation is a single
//! whole-file read, write or removal, so saving is insertion, loading is
//! lookup, and deleting is removal; the laws the stores obey are stated
//! and proved over this map.

use vstd::prelude::*;
use crate::model::StoreError;

verus! {

/// The directory after a save: `<id>.json` created or fully overwritten,
/// no merge.
pub open spec fn store_save<T>(files: Map<Seq<char>, T>, id: Seq<char>, record: T) -> Map<
    Seq<char>,
    T,
> {
    files.insert(id, record)
}

/// What a load of `id` finds: the record under `<id>.json`, or nothing
/// when no such file exists.
pub open spec fn store_load<T>(files: Map<Seq<char>, T>, id: Seq<char>) -> Option<T> {
    if files.dom().contains(id) {
        Some(files[id])
    } else {
        None
    }
}

/// The directory after a delete: `<id>.json` removed if present; a
/// delete of an absent id changes nothing and is not an error.
pub open spec fn store_delete<T>(files: Map<Seq<char>, T>, id: Seq<char>) -> Map<Seq<char>, T> {
    files.remove(id)
}

/// Round trip: after saving a record, loading its id yields exactly the
/// record saved, whatever the directory held before.
pub proof fn lemma_save_then_load<T>(files: Map<Seq<char>, T>, id: Seq<char>, record: T)
    ensures
        store_load(store_save(files, id, record), id) == Some(record),
{
}

/// A save touches no other id's file.
pub proof fn lemma_save_preserves_others<T>(
    files: Map<Seq<char>, T>,
    id: Seq<char>,
    record: T,
    other: Seq<char>,
)
    requires
        other != id,
    ensures
        store_load(store_save(files, id, record), other) == store_load(files, other),
{
}

/// Deleting is idempotent: a second delete of the same id finds nothing
/// to remove and leaves the directory as the first left it — and, like
/// the first, reports success.
pub proof fn lemma_delete_idempotent<T>(files: Map<Seq<char>, T>, id: Seq<char>)
    ensures
        store_delete(store_delete(files, id), id) == store_delete(files, id),
        store_load(store_delete(files, id), id) is None,
{
    assert(store_delete(store_delete(files, id), id) =~= store_delete(files, id));
}

/// What a delete reports. A removal is attempted only when `<id>.json`
/// exists, so `removal_failed` is false both when the file was removed
/// and when there was nothing to remove: an absent file is success, not
/// an error. Only a removal that the file system refused is an error,
/// and it is the I/O error.
pub fn finish_delete(removal_failed: bool) -> (r: Result<(), StoreError>)
    ensures
        r is Ok <==> !removal_failed,
        removal_failed ==> r == Err::<(), StoreError>(StoreError::Io),
{
    if removal_failed {
        Err(StoreError::Io)
    } else {
        Ok(())
    }
}

/// A delete touches no other id's file.
pub proof fn lemma_delete_preserves_others<T>(
    files: Map<Seq<char>, T>,
    id: Seq<char>,
    other: Seq<char>,
)
    requires
        other != id,
    ensures
        store_load(store_delete(files, id), other) == store_load(files, other),
{
}

} // verus!
