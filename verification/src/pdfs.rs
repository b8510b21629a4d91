//! The PDF store's decisions: the placeholder record an import produces,
//! interpretation of a file read, the by-id upsert of an embedded
//! annotation, and the listing pipeline (skip what does not parse, sort
//! by `updated_at` descending).

use vstd::prelude::*;
use vstd::multiset::Multiset;
use vstd::seq_lib::group_seq_properties;
use vstd::string::StringExecFns;
use crate::model::{
    any_unreadable, lemma_any_unreadable_drop_last, FileRead, PDFAnnotation, PDFDocument,
    StoreError,
};
use crate::text::{dec_digits, lemma_lex_le_total, lemma_lex_le_transitive, lex_le, str_lex_le,
u64_to_string};

verus! {

/// The placeholder record an import produces at second `now`. The real
/// file picker is not wired up yet: the name, path and page count are
/// fixed placeholders, kept until a frontend supplies real ones.
pub fn import_pdf(now: u64) -> (p: PDFDocument)
    ensures
        p.id@ == "pdf_"@ + dec_digits(now as nat),
        p.name@ == "Sample PDF"@,
        p.path@ == "/path/to/sample.pdf"@,
        p.pages == 1,
        p.created_at@ == dec_digits(now as nat),
        p.updated_at@ == dec_digits(now as nat),
        p.annotations matches Some(anns) && anns@.len() == 0,
{
    let seconds = u64_to_string(now);
    let mut id = String::new();
    id.append("pdf_");
    id.append(seconds.as_str());
    let mut name = String::new();
    name.append("Sample PDF");
    let mut path = String::new();
    path.append("/path/to/sample.pdf");
    let updated_at = seconds.clone();
    let annotations: Vec<PDFAnnotation> = Vec::new();
    PDFDocument {
        id,
        name,
        path,
        pages: 1,
        created_at: seconds,
        updated_at,
        annotations: Some(annotations),
    }
}

/// Turns the outcome of reading `<id>.json` into what a load reports:
/// the parsed document, or not-found for an absent file, an I/O failure
/// for an unreadable one, and a parse failure for one whose contents are
/// not a document.
pub fn load_pdf(read: FileRead<PDFDocument>) -> (r: Result<PDFDocument, StoreError>)
    ensures
        match read {
            FileRead::Missing => r == Err::<PDFDocument, StoreError>(StoreError::NotFound),
            FileRead::Unreadable => r == Err::<PDFDocument, StoreError>(StoreError::Io),
            FileRead::Malformed => r == Err::<PDFDocument, StoreError>(StoreError::Parse),
            FileRead::Parsed(p) => r == Ok::<PDFDocument, StoreError>(p),
        },
{
    match read {
        FileRead::Missing => Err(StoreError::NotFound),
        FileRead::Unreadable => Err(StoreError::Io),
        FileRead::Malformed => Err(StoreError::Parse),
        FileRead::Parsed(p) => Ok(p),
    }
}

/// Whether some annotation in the sequence carries this id.
pub open spec fn has_annotation_id(s: Seq<PDFAnnotation>, id: Seq<char>) -> bool {
    exists|i: int| 0 <= i < s.len() && s[i].id@ == id
}

/// The first position holding this id.
pub open spec fn first_annotation_index(s: Seq<PDFAnnotation>, id: Seq<char>) -> int
    decreases s.len(),
{
    if s.len() == 0 {
        0
    } else if s[0].id@ == id {
        0
    } else {
        1 + first_annotation_index(s.drop_first(), id)
    }
}

/// When the id occurs, its first position holds it and nothing before
/// does.
pub proof fn lemma_first_annotation_index(s: Seq<PDFAnnotation>, id: Seq<char>)
    requires
        has_annotation_id(s, id),
    ensures
        0 <= first_annotation_index(s, id) < s.len(),
        s[first_annotation_index(s, id)].id@ == id,
        forall|j: int| 0 <= j < first_annotation_index(s, id) ==> s[j].id@ != id,
    decreases s.len(),
{
    if s.len() > 0 && s[0].id@ != id {
        let rest = s.drop_first();
        assert(has_annotation_id(rest, id)) by {
            let i = choose|i: int| 0 <= i < s.len() && s[i].id@ == id;
            assert(rest[i - 1].id@ == id);
        }
        lemma_first_annotation_index(rest, id);
        assert forall|j: int| 0 <= j < first_annotation_index(s, id) implies s[j].id@ != id by {
            if j > 0 {
                assert(rest[j - 1].id@ != id);
            }
        }
    }
}

/// Upsert by id: when some annotation already carries the new one's id,
/// the first such entry is replaced in place; otherwise the new one is
/// appended.
pub open spec fn upserted(s: Seq<PDFAnnotation>, a: PDFAnnotation) -> Seq<PDFAnnotation> {
    if has_annotation_id(s, a.id@) {
        s.update(first_annotation_index(s, a.id@), a)
    } else {
        s.push(a)
    }
}

/// Replaces the first annotation carrying the new one's id, or appends.
pub fn upsert_annotation(annotations: &mut Vec<PDFAnnotation>, annotation: PDFAnnotation)
    ensures
        final(annotations)@ == upserted(old(annotations)@, annotation),
{
    let mut i: usize = 0;
    while i < annotations.len()
        invariant
            i <= annotations@.len(),
            annotations@ == old(annotations)@,
            forall|j: int| 0 <= j < i ==> annotations@[j].id@ != annotation.id@,
        decreases annotations@.len() - i,
    {
        if annotations[i].id.eq(&annotation.id) {
            proof {
                lemma_first_annotation_index(annotations@, annotation.id@);
                assert(first_annotation_index(annotations@, annotation.id@) == i);
            }
            let ghost prev = annotations@;
            annotations.remove(i);
            annotations.insert(i, annotation);
            proof {
                assert(annotations@ =~= prev.update(i as int, annotation));
            }
            return ;
        }
        i = i + 1;
    }
    annotations.push(annotation);
}

/// Attaches an annotation to a loaded document: initializes the
/// annotation list when the document has none, upserts by id, and stamps
/// `updated_at` with `now`. Everything else is untouched.
pub fn save_annotation_in(pdf: &mut PDFDocument, annotation: PDFAnnotation, now: u64)
    ensures
        final(pdf).annotations matches Some(anns) && anns@ == upserted(
            spec_annotations_of(*old(pdf)),
            annotation,
        ),
        final(pdf).updated_at@ == dec_digits(now as nat),
        final(pdf).id == old(pdf).id,
        final(pdf).name == old(pdf).name,
        final(pdf).path == old(pdf).path,
        final(pdf).pages == old(pdf).pages,
        final(pdf).created_at == old(pdf).created_at,
{
    if pdf.annotations.is_none() {
        pdf.annotations = Some(Vec::new());
    }
    match &mut pdf.annotations {
        Some(annotations) => {
            upsert_annotation(annotations, annotation);
        },
        None => {
            proof {
                assert(false);
            }
        },
    }
    pdf.updated_at = u64_to_string(now);
}

/// The annotation sequence a document carries, an absent list reading as
/// empty.
pub open spec fn spec_annotations_of(pdf: PDFDocument) -> Seq<PDFAnnotation> {
    match pdf.annotations {
        Some(anns) => anns@,
        None => Seq::empty(),
    }
}

/// The save an annotation-save performs: the parent document as just
/// read from disk, with the annotation upserted and `updated_at`
/// stamped. A load failure propagates — in particular, an absent
/// document reports not-found — and then nothing is written.
pub fn save_pdf_annotation(read: FileRead<PDFDocument>, annotation: PDFAnnotation, now: u64) -> (r:
    Result<PDFDocument, StoreError>)
    ensures
        match read {
            FileRead::Missing => r == Err::<PDFDocument, StoreError>(StoreError::NotFound),
            FileRead::Unreadable => r == Err::<PDFDocument, StoreError>(StoreError::Io),
            FileRead::Malformed => r == Err::<PDFDocument, StoreError>(StoreError::Parse),
            FileRead::Parsed(p) => r matches Ok(out) && out.annotations matches Some(anns)
                && anns@ == upserted(spec_annotations_of(p), annotation) && out.updated_at@
                == dec_digits(now as nat) && out.id == p.id && out.name == p.name && out.path
                == p.path && out.pages == p.pages && out.created_at == p.created_at,
        },
{
    let mut pdf = match load_pdf(read) {
        Ok(p) => p,
        Err(e) => {
            return Err(e);
        },
    };
    save_annotation_in(&mut pdf, annotation, now);
    Ok(pdf)
}

/// Upserting an annotation and then another with the same id leaves
/// exactly one annotation under that id — the second one, standing where
/// the first landed — provided the document did not already carry the id
/// twice.
pub proof fn lemma_upsert_same_id_twice(s: Seq<PDFAnnotation>, a1: PDFAnnotation, a2: PDFAnnotation)
    requires
        a1.id@ == a2.id@,
        forall|i: int, j: int|
            0 <= i < j < s.len() && s[i].id@ == a1.id@ ==> s[j].id@ != a1.id@,
    ensures
        ({
            let t = upserted(upserted(s, a1), a2);
            &&& has_annotation_id(t, a2.id@)
            &&& forall|i: int| 0 <= i < t.len() && t[i].id@ == a2.id@ ==> t[i] == a2
            &&& forall|i: int, j: int|
                0 <= i < j < t.len() && t[i].id@ == a2.id@ ==> t[j].id@ != a2.id@
        }),
{
    let id = a1.id@;
    let t1 = upserted(s, a1);
    if has_annotation_id(s, id) {
        lemma_first_annotation_index(s, id);
        let f = first_annotation_index(s, id);
        assert(t1 == s.update(f, a1));
        assert(t1[f] == a1);
        assert(has_annotation_id(t1, id));
        lemma_first_annotation_index(t1, id);
        assert(first_annotation_index(t1, id) == f) by {
            let f1 = first_annotation_index(t1, id);
            if f1 < f {
                assert(s[f1].id@ != id);
                assert(t1[f1] == s[f1]);
            }
            if f1 > f {
                assert(t1[f] == a1);
            }
        }
        let t = t1.update(f, a2);
        assert(upserted(t1, a2) == t);
        assert(t[f] == a2);
        assert forall|i: int| 0 <= i < t.len() && t[i].id@ == id implies t[i] == a2 by {
            if i != f {
                assert(t[i] == s[i]);
                if i < f {
                    assert(s[i].id@ != id);
                } else {
                    // a second occurrence in s beside the one at f is ruled out
                    assert(s[f].id@ == id);
                }
            }
        }
    } else {
        let n = s.len() as int;
        assert(t1 == s.push(a1));
        assert(t1[n] == a1);
        assert(has_annotation_id(t1, id));
        lemma_first_annotation_index(t1, id);
        assert(first_annotation_index(t1, id) == n) by {
            let f1 = first_annotation_index(t1, id);
            if f1 < n {
                assert(t1[f1] == s[f1]);
                assert(!has_annotation_id(s, id));
            }
        }
        let t = t1.update(n, a2);
        assert(upserted(t1, a2) == t);
        assert(t[n] == a2);
        assert forall|i: int| 0 <= i < t.len() && t[i].id@ == id implies t[i] == a2 by {
            if i != n {
                assert(t[i] == s[i]);
                assert(!has_annotation_id(s, id));
            }
        }
    }
}

/// Whether listed documents stand in `updated_at`-descending order.
pub open spec fn pdfs_sorted_desc(s: Seq<PDFDocument>) -> bool {
    forall|i: int, j: int| 0 <= i < j < s.len() ==> lex_le(s[j].updated_at@, s[i].updated_at@)
}

/// Inserts one document into a descending listing, keeping the order.
fn insert_pdf_sorted(out: &mut Vec<PDFDocument>, item: PDFDocument)
    requires
        pdfs_sorted_desc(old(out)@),
    ensures
        pdfs_sorted_desc(final(out)@),
        final(out)@.to_multiset() == old(out)@.to_multiset().insert(item),
{
    broadcast use vstd::seq_lib::to_multiset_insert;

    let mut idx: usize = 0;
    while idx < out.len() && !str_lex_le(out[idx].updated_at.as_str(), item.updated_at.as_str())
        invariant
            pdfs_sorted_desc(out@),
            out@ == old(out)@,
            idx <= out@.len(),
            forall|j: int| 0 <= j < idx ==> !lex_le(out@[j].updated_at@, item.updated_at@),
        decreases out@.len() - idx,
    {
        idx = idx + 1;
    }
    let ghost prev = out@;
    let ghost pos = idx as int;
    out.insert(idx, item);
    proof {
        assert(out@ == prev.insert(pos, item));
        assert forall|i: int, j: int| 0 <= i < j < out@.len() implies lex_le(
            out@[j].updated_at@,
            out@[i].updated_at@,
        ) by {
            if j < pos {
                assert(out@[i] == prev[i] && out@[j] == prev[j]);
            } else if i > pos {
                assert(out@[i] == prev[i - 1] && out@[j] == prev[j - 1]);
            } else if i < pos && j == pos {
                lemma_lex_le_total(prev[i].updated_at@, item.updated_at@);
            } else if i < pos && j > pos {
                assert(out@[i] == prev[i] && out@[j] == prev[j - 1]);
            } else if i == pos && j > pos {
                assert(pos < prev.len() && lex_le(prev[pos].updated_at@, item.updated_at@));
                if j - 1 > pos {
                    assert(lex_le(prev[j - 1].updated_at@, prev[pos].updated_at@));
                    lemma_lex_le_transitive(
                        prev[j - 1].updated_at@,
                        prev[pos].updated_at@,
                        item.updated_at@,
                    );
                }
            }
        }
    }
}

/// The documents a listing of these read outcomes carries, before
/// sorting: every document that parsed, in scan order.
pub open spec fn listed_pdfs(reads: Seq<FileRead<PDFDocument>>) -> Seq<PDFDocument>
    decreases reads.len(),
{
    if reads.len() == 0 {
        Seq::empty()
    } else {
        let rest = listed_pdfs(reads.drop_last());
        match reads.last() {
            FileRead::Parsed(p) => rest.push(p),
            _ => rest,
        }
    }
}

/// The listing a scan of the pdfs directory yields: the full documents —
/// no metadata projection — of exactly the files that parsed, sorted by
/// `updated_at` descending; a file that read but did not parse is
/// skipped, and one that could not be read fails the scan with an I/O
/// error.
pub fn list_pdfs(reads: Vec<FileRead<PDFDocument>>) -> (r: Result<Vec<PDFDocument>, StoreError>)
    ensures
        match r {
            Ok(list) => !any_unreadable(reads@) && pdfs_sorted_desc(list@)
                && list@.to_multiset() == listed_pdfs(reads@).to_multiset(),
            Err(e) => e == StoreError::Io && any_unreadable(reads@),
        },
{
    broadcast use group_seq_properties;

    let mut remaining = reads;
    let mut out: Vec<PDFDocument> = Vec::new();
    loop
        invariant
            pdfs_sorted_desc(out@),
            listed_pdfs(reads@).to_multiset() == listed_pdfs(remaining@).to_multiset().add(
                out@.to_multiset(),
            ),
            any_unreadable(reads@) == any_unreadable(remaining@),
        decreases remaining@.len(),
    {
        let ghost before = remaining@;
        let next = remaining.pop();
        match next {
            None => {
                proof {
                    broadcast use vstd::seq_lib::group_to_multiset_ensures;
                    broadcast use vstd::multiset::group_multiset_axioms;

                    assert(before.len() == 0);
                    assert(listed_pdfs(before) =~= Seq::<PDFDocument>::empty());
                    assert(listed_pdfs(before).to_multiset().len() == 0);
                    assert(listed_pdfs(before).to_multiset() =~= Multiset::empty());
                    assert(listed_pdfs(reads@).to_multiset() =~= out@.to_multiset());
                }
                return Ok(out);
            },
            Some(FileRead::Unreadable) => {
                proof {
                    assert(before[before.len() - 1] is Unreadable);
                }
                return Err(StoreError::Io);
            },
            Some(FileRead::Parsed(pdf)) => {
                proof {
                    assert(remaining@ == before.drop_last());
                    assert(listed_pdfs(before) == listed_pdfs(remaining@).push(pdf));
                    lemma_any_unreadable_drop_last(before);
                }
                let ghost old_out = out@;
                let ghost item = pdf;
                insert_pdf_sorted(&mut out, pdf);
                proof {
                    broadcast use vstd::seq_lib::group_to_multiset_ensures;
                    broadcast use vstd::multiset::group_multiset_axioms;
                    broadcast use vstd::multiset::group_multiset_properties;

                    assert(listed_pdfs(remaining@).push(item).to_multiset() =~= listed_pdfs(
                        remaining@,
                    ).to_multiset().insert(item));
                    assert(listed_pdfs(before).to_multiset() =~= listed_pdfs(
                        remaining@,
                    ).to_multiset().insert(item));
                    assert(listed_pdfs(remaining@).to_multiset().insert(item).add(
                        old_out.to_multiset(),
                    ) =~= listed_pdfs(remaining@).to_multiset().add(
                        old_out.to_multiset().insert(item),
                    ));
                }
            },
            Some(other) => {
                proof {
                    assert(remaining@ == before.drop_last());
                    assert(!(before.last() is Parsed) && !(before.last() is Unreadable));
                    assert(listed_pdfs(before) == listed_pdfs(remaining@));
                    lemma_any_unreadable_drop_last(before);
                }
            },
        }
    }
}

} // verus!
