use flow_notes::model::{AnnotationRect, FileRead, PDFAnnotation, PDFDocument, StoreError};
use flow_notes::pdfs::{import_pdf, list_pdfs, load_pdf, save_pdf_annotation, upsert_annotation};

fn rect(x: f64, y: f64, width: f64, height: f64) -> AnnotationRect {
    AnnotationRect {
        x: x.to_bits(),
        y: y.to_bits(),
        width: width.to_bits(),
        height: height.to_bits(),
    }
}

fn annotation(id: &str, content: &str) -> PDFAnnotation {
    PDFAnnotation {
        id: id.to_string(),
        annotation_type: "comment".to_string(),
        content: Some(content.to_string()),
        page: 1,
        rect: rect(1.0, 2.0, 3.5, 4.5),
        color: None,
    }
}

fn pdf(id: &str, updated_at: &str, annotations: Option<Vec<PDFAnnotation>>) -> PDFDocument {
    PDFDocument {
        id: id.to_string(),
        name: "doc".to_string(),
        path: "/tmp/doc.pdf".to_string(),
        pages: 3,
        created_at: "0".to_string(),
        updated_at: updated_at.to_string(),
        annotations,
    }
}

#[test]
fn import_produces_the_placeholder_record() {
    let p = import_pdf(42);
    assert_eq!(p.id, "pdf_42");
    assert_eq!(p.name, "Sample PDF");
    assert_eq!(p.path, "/path/to/sample.pdf");
    assert_eq!(p.pages, 1);
    assert_eq!(p.created_at, "42");
    assert_eq!(p.updated_at, "42");
    assert_eq!(p.annotations, Some(vec![]));
}

#[test]
fn load_missing_pdf_is_not_found() {
    assert_eq!(load_pdf(FileRead::Missing), Err(StoreError::NotFound));
}

#[test]
fn load_returns_the_parsed_pdf_unchanged() {
    let p = pdf("pdf_1", "5", None);
    let expected = pdf("pdf_1", "5", None);
    assert_eq!(load_pdf(FileRead::Parsed(p)), Ok(expected));
}

#[test]
fn upsert_appends_a_new_id() {
    let mut anns = vec![annotation("a1", "one")];
    upsert_annotation(&mut anns, annotation("a2", "two"));
    assert_eq!(anns.len(), 2);
    assert_eq!(anns[1].id, "a2");
}

#[test]
fn upsert_replaces_in_place_and_keeps_position() {
    let mut anns = vec![annotation("a1", "one"), annotation("a2", "two"), annotation("a3", "three")];
    upsert_annotation(&mut anns, annotation("a2", "changed"));
    assert_eq!(anns.len(), 3);
    assert_eq!(anns[0].content, Some("one".to_string()));
    assert_eq!(anns[1].id, "a2");
    assert_eq!(anns[1].content, Some("changed".to_string()));
    assert_eq!(anns[2].id, "a3");
}

#[test]
fn saving_an_annotation_twice_keeps_one_with_the_second_content() {
    let doc = pdf("pdf_1", "5", Some(vec![]));
    let once = save_pdf_annotation(FileRead::Parsed(doc), annotation("a1", "first"), 10).unwrap();
    let twice = save_pdf_annotation(FileRead::Parsed(once), annotation("a1", "second"), 11)
        .unwrap();
    let anns = twice.annotations.unwrap();
    let with_id: Vec<&PDFAnnotation> = anns.iter().filter(|a| a.id == "a1").collect();
    assert_eq!(with_id.len(), 1);
    assert_eq!(with_id[0].content, Some("second".to_string()));
    assert_eq!(twice.updated_at, "11");
}

#[test]
fn saving_an_annotation_initializes_an_absent_list() {
    let doc = pdf("pdf_1", "5", None);
    let saved = save_pdf_annotation(FileRead::Parsed(doc), annotation("a1", "x"), 10).unwrap();
    let anns = saved.annotations.unwrap();
    assert_eq!(anns.len(), 1);
    assert_eq!(anns[0].id, "a1");
}

#[test]
fn saving_an_annotation_keeps_the_rest_of_the_document() {
    let doc = pdf("pdf_9", "5", Some(vec![]));
    let saved = save_pdf_annotation(FileRead::Parsed(doc), annotation("a1", "x"), 10).unwrap();
    assert_eq!(saved.id, "pdf_9");
    assert_eq!(saved.name, "doc");
    assert_eq!(saved.path, "/tmp/doc.pdf");
    assert_eq!(saved.pages, 3);
    assert_eq!(saved.created_at, "0");
}

#[test]
fn annotation_save_on_missing_document_is_not_found() {
    let r = save_pdf_annotation(FileRead::Missing, annotation("a1", "x"), 10);
    assert_eq!(r, Err(StoreError::NotFound));
}

#[test]
fn annotation_save_on_malformed_document_is_parse_error() {
    let r = save_pdf_annotation(FileRead::Malformed, annotation("a1", "x"), 10);
    assert_eq!(r, Err(StoreError::Parse));
}

#[test]
fn annotation_rect_round_trips_through_bits() {
    let r = rect(1.25, -2.5, 3.75, 0.0);
    assert_eq!(f64::from_bits(r.x), 1.25);
    assert_eq!(f64::from_bits(r.y), -2.5);
    assert_eq!(f64::from_bits(r.width), 3.75);
    assert_eq!(f64::from_bits(r.height), 0.0);
}

#[test]
fn list_returns_full_documents_sorted_descending() {
    let reads = vec![
        FileRead::Parsed(pdf("a", "100", None)),
        FileRead::Parsed(pdf("b", "300", None)),
        FileRead::Parsed(pdf("c", "200", None)),
    ];
    let listed = list_pdfs(reads).unwrap();
    let ids: Vec<&str> = listed.iter().map(|p| p.id.as_str()).collect();
    assert_eq!(ids, vec!["b", "c", "a"]);
    assert_eq!(listed[0].name, "doc");
}

#[test]
fn list_skips_malformed_pdfs() {
    let reads = vec![FileRead::Parsed(pdf("a", "2", None)), FileRead::Malformed];
    let listed = list_pdfs(reads).unwrap();
    assert_eq!(listed.len(), 1);
    assert_eq!(listed[0].id, "a");
}

#[test]
fn list_fails_when_a_pdf_file_cannot_be_read() {
    let reads = vec![FileRead::Unreadable];
    assert_eq!(list_pdfs(reads), Err(StoreError::Io));
}
