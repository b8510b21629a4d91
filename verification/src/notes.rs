//! The note store's decisions: title-collision resolution on create, the
//! note a create produces, metadata projection, interpretation of a file
//! read, and the listing pipeline (skip what does not parse, project,
//! sort by `updated_at` descending).

use vstd::prelude::*;
use vstd::seq_lib::group_seq_properties;
use vstd::set_lib::{lemma_int_range, lemma_len_subset, lemma_map_size, set_int_range};
use vstd::relations::injective_on;
use vstd::string::StringExecFns;
use vstd::multiset::Multiset;
use crate::model::{
    any_unreadable, lemma_any_unreadable_drop_last, Block, FileRead, Note, NoteMetadata,
    StoreError,
};
use crate::text::{
    dec_digits, lemma_concat_cancel_left, lemma_dec_digits_injective, lemma_lex_le_total,
    lemma_lex_le_transitive, lex_le, str_lex_le, u64_to_string, u128_to_string,
};

verus! {

/// Whether some listed note already carries this title.
pub open spec fn title_taken(existing: Seq<NoteMetadata>, title: Seq<char>) -> bool {
    exists|i: int| 0 <= i < existing.len() && existing[i].title@ == title
}

/// The k-th fallback title a create tries: `<title> <k>`.
pub open spec fn title_candidate(title: Seq<char>, k: nat) -> Seq<char> {
    title + " "@ + dec_digits(k)
}

/// What a resolved title is: free among the existing titles; the request
/// itself when that is free; otherwise the first free numbered fallback.
pub open spec fn resolved_title(
    existing: Seq<NoteMetadata>,
    requested: Seq<char>,
    r: Seq<char>,
) -> bool {
    &&& !title_taken(existing, r)
    &&& (!title_taken(existing, requested) ==> r == requested)
    &&& (title_taken(existing, requested) ==> exists|k: nat|
        1 <= k && r == title_candidate(requested, k) && (forall|j: nat|
            1 <= j < k ==> title_taken(existing, title_candidate(requested, j))))
}

proof fn lemma_candidate_injective(title: Seq<char>, k1: nat, k2: nat)
    requires
        title_candidate(title, k1) == title_candidate(title, k2),
    ensures
        k1 == k2,
{
    lemma_concat_cancel_left(title + " "@, dec_digits(k1), dec_digits(k2));
    lemma_dec_digits_injective(k1, k2);
}

/// Among the fallbacks numbered 1 through n+1, where n titles exist, some
/// fallback is free: there are more candidates than titles and no two
/// candidates agree.
proof fn lemma_free_candidate(existing: Seq<NoteMetadata>, title: Seq<char>)
    ensures
        exists|k: nat|
            1 <= k <= existing.len() + 1 && !title_taken(existing, title_candidate(title, k)),
{
    let n = existing.len() as int;
    let titles = existing.map_values(|m: NoteMetadata| m.title@);
    let cand = |k: int| title_candidate(title, k as nat);
    let ks = set_int_range(1, n + 2);
    lemma_int_range(1, n + 2);
    if forall|k: nat|
        1 <= k <= existing.len() + 1 ==> title_taken(existing, title_candidate(title, k)) {
        let images = ks.map(cand);
        assert(injective_on(cand, ks)) by {
            assert forall|k1: int, k2: int|
                #[trigger] ks.contains(k1) && #[trigger] ks.contains(k2) && cand(k1) == cand(
                    k2,
                ) implies k1 == k2 by {
                lemma_candidate_injective(title, k1 as nat, k2 as nat);
            }
        }
        lemma_map_size(ks, images, cand);
        assert(images.subset_of(titles.to_set())) by {
            assert forall|t: Seq<char>| #[trigger] images.contains(t) implies titles.to_set()
                .contains(t) by {
                let k = choose|k: int| ks.contains(k) && cand(k) == t;
                assert(1 <= k <= existing.len() + 1);
                assert(title_taken(existing, title_candidate(title, k as nat)));
                let i = choose|i: int|
                    0 <= i < existing.len() && existing[i].title@ == title_candidate(
                        title,
                        k as nat,
                    );
                assert(titles[i] == t);
                assert(titles.to_set().contains(titles[i]));
            }
        }
        lemma_len_subset(images, titles.to_set());
        titles.lemma_cardinality_of_set();
        assert(false);
    }
}

fn title_is_taken(existing: &Vec<NoteMetadata>, title: &String) -> (r: bool)
    ensures
        r == title_taken(existing@, title@),
{
    let mut i: usize = 0;
    while i < existing.len()
        invariant
            i <= existing@.len(),
            forall|j: int| 0 <= j < i ==> existing@[j].title@ != title@,
        decreases existing@.len() - i,
    {
        if existing[i].title.eq(title) {
            return true;
        }
        i = i + 1;
    }
    false
}

/// The title a create actually uses: the request when no listed note
/// carries it, otherwise `<title> 1`, `<title> 2`, ... — the first free
/// numbered fallback. Sequential creates therefore never repeat a title;
/// two concurrent creates may, since each scans before either writes.
pub fn resolve_title(title: &String, existing: &Vec<NoteMetadata>) -> (r: String)
    ensures
        resolved_title(existing@, title@, r@),
{
    if !title_is_taken(existing, title) {
        return title.clone();
    }
    proof {
        lemma_free_candidate(existing@, title@);
    }
    let ghost free_k = choose|k: nat|
        1 <= k <= existing@.len() + 1 && !title_taken(existing@, title_candidate(title@, k));
    let n = existing.len();
    let mut k: u128 = 1;
    loop
        invariant
            title_taken(existing@, title@),
            n == existing@.len(),
            1 <= k <= free_k,
            free_k <= n + 1,
            !title_taken(existing@, title_candidate(title@, free_k)),
            forall|j: nat| 1 <= j < k ==> title_taken(existing@, title_candidate(title@, j)),
        decreases free_k - k,
    {
        let mut attempt = title.clone();
        attempt.append(" ");
        let digits = u128_to_string(k);
        attempt.append(digits.as_str());
        proof {
            assert(attempt@ =~= title_candidate(title@, k as nat));
        }
        if !title_is_taken(existing, &attempt) {
            proof {
                let kk = k as nat;
                assert(exists|k2: nat|
                    1 <= k2 && attempt@ == title_candidate(title@, k2) && (forall|j: nat|
                        1 <= j < k2 ==> title_taken(existing@, title_candidate(title@, j)))) by {
                    assert(1 <= kk && attempt@ == title_candidate(title@, kk) && (forall|j: nat|
                        1 <= j < kk ==> title_taken(existing@, title_candidate(title@, j))));
                }
            }
            return attempt;
        }
        proof {
            // the free fallback exists and is not this one, so it lies above
            assert(k as nat != free_k);
        }
        k = k + 1;
    }
}

/// Sequential creates never repeat a title: whatever title a first
/// create resolved, a second create that sees that title among the
/// listed notes resolves a different one. (Two concurrent creates hold
/// no such guarantee: each scans before either writes.)
pub proof fn lemma_sequential_creates_differ(
    existing: Seq<NoteMetadata>,
    requested: Seq<char>,
    first: Seq<char>,
    second: Seq<char>,
    i: int,
)
    requires
        0 <= i < existing.len(),
        existing[i].title@ == first,
        resolved_title(existing, requested, second),
    ensures
        second != first,
{
    assert(title_taken(existing, first));
}

/// The listing projection of a note: every field but the blocks.
pub open spec fn spec_metadata_of(n: Note) -> NoteMetadata {
    NoteMetadata {
        id: n.id,
        title: n.title,
        created_at: n.created_at,
        updated_at: n.updated_at,
        tags: n.tags,
    }
}

/// Projects a note to the record a listing returns.
pub fn metadata_of(note: Note) -> (m: NoteMetadata)
    ensures
        m == spec_metadata_of(note),
{
    NoteMetadata {
        id: note.id,
        title: note.title,
        created_at: note.created_at,
        updated_at: note.updated_at,
        tags: note.tags,
    }
}

/// The note a create with this title produces at second `now`: a
/// time-derived id, the collision-resolved title, one default heading
/// block, and both timestamps at `now`.
pub fn create_note(title: &String, existing: &Vec<NoteMetadata>, now: u64) -> (n: Note)
    requires
        now < u64::MAX,
    ensures
        n.id@ == "note_"@ + dec_digits(now as nat),
        resolved_title(existing@, title@, n.title@),
        n.blocks@.len() == 1,
        n.blocks@[0].id@ == "block_"@ + dec_digits((now + 1) as nat),
        n.blocks@[0].block_type@ == "heading"@,
        n.blocks@[0].content@ == "Untitled"@,
        n.blocks@[0].checked is None,
        n.blocks@[0].file_path is None,
        n.blocks@[0].children is None,
        n.blocks@[0].order == 0,
        n.created_at@ == dec_digits(now as nat),
        n.updated_at@ == dec_digits(now as nat),
        n.tags is None,
{
    let seconds = u64_to_string(now);
    let block_seconds = u64_to_string(now + 1);
    let final_title = resolve_title(title, existing);
    let mut id = String::new();
    id.append("note_");
    id.append(seconds.as_str());
    let mut block_id = String::new();
    block_id.append("block_");
    block_id.append(block_seconds.as_str());
    let mut content = String::new();
    content.append("Untitled");
    let mut block_type = String::new();
    block_type.append("heading");
    let block = Block {
        id: block_id,
        block_type,
        content,
        checked: None,
        file_path: None,
        children: None,
        order: 0,
    };
    let mut blocks: Vec<Block> = Vec::new();
    blocks.push(block);
    let updated_at = seconds.clone();
    Note { id, title: final_title, blocks, created_at: seconds, updated_at, tags: None }
}

/// Turns the outcome of reading `<id>.json` into what a load reports: the
/// parsed note, or not-found for an absent file, an I/O failure for an
/// unreadable one, and a parse failure for one whose contents are not a
/// note.
pub fn load_note(read: FileRead<Note>) -> (r: Result<Note, StoreError>)
    ensures
        match read {
            FileRead::Missing => r == Err::<Note, StoreError>(StoreError::NotFound),
            FileRead::Unreadable => r == Err::<Note, StoreError>(StoreError::Io),
            FileRead::Malformed => r == Err::<Note, StoreError>(StoreError::Parse),
            FileRead::Parsed(n) => r == Ok::<Note, StoreError>(n),
        },
{
    match read {
        FileRead::Missing => Err(StoreError::NotFound),
        FileRead::Unreadable => Err(StoreError::Io),
        FileRead::Malformed => Err(StoreError::Parse),
        FileRead::Parsed(n) => Ok(n),
    }
}

/// Whether listed notes stand in `updated_at`-descending order.
pub open spec fn notes_sorted_desc(s: Seq<NoteMetadata>) -> bool {
    forall|i: int, j: int| 0 <= i < j < s.len() ==> lex_le(s[j].updated_at@, s[i].updated_at@)
}

/// Inserts one record into a descending listing, keeping the order.
fn insert_note_sorted(out: &mut Vec<NoteMetadata>, item: NoteMetadata)
    requires
        notes_sorted_desc(old(out)@),
    ensures
        notes_sorted_desc(final(out)@),
        final(out)@.to_multiset() == old(out)@.to_multiset().insert(item),
{
    broadcast use vstd::seq_lib::to_multiset_insert;

    let mut idx: usize = 0;
    while idx < out.len() && !str_lex_le(out[idx].updated_at.as_str(), item.updated_at.as_str())
        invariant
            notes_sorted_desc(out@),
            out@ == old(out)@,
            idx <= out@.len(),
            forall|j: int| 0 <= j < idx ==> !lex_le(out@[j].updated_at@, item.updated_at@),
        decreases out@.len() - idx,
    {
        idx = idx + 1;
    }
    let ghost prev = out@;
    let ghost pos = idx as int;
    out.insert(idx, item);
    proof {
        assert(out@ == prev.insert(pos, item));
        assert forall|i: int, j: int| 0 <= i < j < out@.len() implies lex_le(
            out@[j].updated_at@,
            out@[i].updated_at@,
        ) by {
            if j < pos {
                assert(out@[i] == prev[i] && out@[j] == prev[j]);
            } else if i > pos {
                assert(out@[i] == prev[i - 1] && out@[j] == prev[j - 1]);
            } else if i < pos && j == pos {
                lemma_lex_le_total(prev[i].updated_at@, item.updated_at@);
            } else if i < pos && j > pos {
                assert(out@[i] == prev[i] && out@[j] == prev[j - 1]);
            } else if i == pos && j > pos {
                // the element at the found position bounds everything after it
                assert(pos < prev.len() && lex_le(prev[pos].updated_at@, item.updated_at@));
                if j - 1 > pos {
                    assert(lex_le(prev[j - 1].updated_at@, prev[pos].updated_at@));
                    lemma_lex_le_transitive(
                        prev[j - 1].updated_at@,
                        prev[pos].updated_at@,
                        item.updated_at@,
                    );
                }
            }
        }
    }
}

/// The records a listing of these read outcomes carries, before sorting:
/// the projection of every note that parsed, in scan order; outcomes that
/// did not parse contribute nothing.
pub open spec fn listed_notes(reads: Seq<FileRead<Note>>) -> Seq<NoteMetadata>
    decreases reads.len(),
{
    if reads.len() == 0 {
        Seq::empty()
    } else {
        let rest = listed_notes(reads.drop_last());
        match reads.last() {
            FileRead::Parsed(n) => rest.push(spec_metadata_of(n)),
            _ => rest,
        }
    }
}

/// The listing a scan of the notes directory yields. Every outcome is one
/// `.json` file: a note that parsed, a file that read but did not parse
/// (skipped, so one corrupt file cannot break the listing), or a file
/// that could not be read (the scan fails with an I/O error). The result
/// holds the projection of exactly the parsed notes, sorted by
/// `updated_at` descending; equal keys order arbitrarily.
pub fn list_notes(reads: Vec<FileRead<Note>>) -> (r: Result<Vec<NoteMetadata>, StoreError>)
    ensures
        match r {
            Ok(list) => !any_unreadable(reads@) && notes_sorted_desc(list@) && list@.to_multiset()
                == listed_notes(reads@).to_multiset(),
            Err(e) => e == StoreError::Io && any_unreadable(reads@),
        },
{
    broadcast use group_seq_properties;

    let mut remaining = reads;
    let mut out: Vec<NoteMetadata> = Vec::new();
    loop
        invariant
            notes_sorted_desc(out@),
            listed_notes(reads@).to_multiset() == listed_notes(remaining@).to_multiset().add(
                out@.to_multiset(),
            ),
            any_unreadable(reads@) == any_unreadable(remaining@),
        decreases remaining@.len(),
    {
        let ghost before = remaining@;
        let next = remaining.pop();
        match next {
            None => {
                proof {
                    broadcast use vstd::seq_lib::group_to_multiset_ensures;
                    broadcast use vstd::multiset::group_multiset_axioms;

                    assert(before.len() == 0);
                    assert(listed_notes(before) =~= Seq::<NoteMetadata>::empty());
                    assert(listed_notes(before).to_multiset().len() == 0);
                    assert(listed_notes(before).to_multiset() =~= Multiset::empty());
                    assert(listed_notes(reads@).to_multiset() =~= out@.to_multiset());
                }
                return Ok(out);
            },
            Some(FileRead::Unreadable) => {
                proof {
                    assert(before[before.len() - 1] is Unreadable);
                }
                return Err(StoreError::Io);
            },
            Some(FileRead::Parsed(note)) => {
                proof {
                    assert(remaining@ == before.drop_last());
                    assert(listed_notes(before) == listed_notes(remaining@).push(
                        spec_metadata_of(note),
                    ));
                    lemma_any_unreadable_drop_last(before);
                }
                let ghost old_out = out@;
                let meta = metadata_of(note);
                insert_note_sorted(&mut out, meta);
                proof {
                    broadcast use vstd::seq_lib::group_to_multiset_ensures;
                    broadcast use vstd::multiset::group_multiset_axioms;
                    broadcast use vstd::multiset::group_multiset_properties;

                    assert(listed_notes(remaining@).push(meta).to_multiset() =~= listed_notes(
                        remaining@,
                    ).to_multiset().insert(meta));
                    assert(listed_notes(before).to_multiset() =~= listed_notes(
                        remaining@,
                    ).to_multiset().insert(meta));
                    assert(listed_notes(remaining@).to_multiset().insert(meta).add(
                        old_out.to_multiset(),
                    ) =~= listed_notes(remaining@).to_multiset().add(
                        old_out.to_multiset().insert(meta),
                    ));
                }
            },
            Some(other) => {
                proof {
                    assert(remaining@ == before.drop_last());
                    assert(!(before.last() is Parsed) && !(before.last() is Unreadable));
                    assert(listed_notes(before) == listed_notes(remaining@));
                    lemma_any_unreadable_drop_last(before);
                }
            },
        }
    }
}

} // verus!
