use vget::document::{check_closed, check_wf, page_ids, Document, PdfError};
use vget::info::{get_pdf_info, PdfInfo};
use vget::merge::merge_pdfs;
use vget::objects::{Object, ObjectId, StrFormat};
use vget::pages::delete_pages;
use vget::watermark::remove_watermark;

fn oid(n: u32) -> ObjectId {
    ObjectId { num: n, gen: 0 }
}

fn name(s: &[u8]) -> Object {
    Object::Name(s.to_vec())
}

fn dict(entries: Vec<(&[u8], Object)>) -> Object {
    Object::Dictionary(entries.into_iter().map(|(k, v)| (k.to_vec(), v)).collect())
}

/// A document with a catalog at 1, a root pages node at 2, and `n` pages
/// at 3, 4, ...
fn make_doc(n: usize) -> Document {
    let kids: Vec<Object> = (0..n).map(|i| Object::Reference(oid(3 + i as u32))).collect();
    let mut objects = vec![
        (
            oid(1),
            dict(vec![(b"Type".as_slice(), name(b"Catalog")), (b"Pages", Object::Reference(oid(2)))]),
        ),
        (
            oid(2),
            dict(vec![
                (b"Type".as_slice(), name(b"Pages")),
                (b"Kids", Object::Array(kids)),
                (b"Count", Object::Integer(n as i64)),
            ]),
        ),
    ];
    for i in 0..n {
        objects.push((
            oid(3 + i as u32),
            dict(vec![(b"Type".as_slice(), name(b"Page")), (b"Parent", Object::Reference(oid(2)))]),
        ));
    }
    Document {
        objects,
        trailer: vec![(b"Root".to_vec(), Object::Reference(oid(1)))],
        max_id: 2 + n as u32,
    }
}

fn root_count_of(doc: &Document) -> i64 {
    for (id, o) in &doc.objects {
        if *id == oid(2) {
            if let Object::Dictionary(d) = o {
                for (k, v) in d {
                    if k == b"Count" {
                        if let Object::Integer(c) = v {
                            return *c;
                        }
                    }
                }
            }
        }
    }
    panic!("no root count");
}

#[test]
fn test_get_pdf_info() {
    // This would require a test PDF file
}

#[test]
fn test_merge_two_docs_concatenates_pages() {
    let a = make_doc(2);
    let b = make_doc(3);
    let merged = merge_pdfs(vec![a, b]).unwrap();
    let pages = page_ids(&merged).unwrap();
    // The base's pages stay first; the source's pages follow under fresh
    // identifiers minted above the base's old maximum of 4.
    assert_eq!(
        pages,
        vec![oid(3), oid(4), oid(7), oid(8), oid(9)]
    );
    assert_eq!(merged.objects.len(), 4 + 5);
    assert_eq!(merged.max_id, 4 + 5);
    assert!(check_wf(&merged));
    assert!(check_closed(&merged));
    assert_eq!(root_count_of(&merged), 5);
}

#[test]
fn test_merge_self_with_self_keeps_ids_unique() {
    let merged = merge_pdfs(vec![make_doc(1), make_doc(1)]).unwrap();
    assert!(check_wf(&merged));
    assert!(check_closed(&merged));
    assert_eq!(page_ids(&merged).unwrap().len(), 2);
}

#[test]
fn test_merge_single_input_is_identity() {
    let merged = merge_pdfs(vec![make_doc(2)]).unwrap();
    assert_eq!(merged, make_doc(2));
}

#[test]
fn test_merge_empty_input_is_refused() {
    assert_eq!(merge_pdfs(vec![]), Err(PdfError::NoInput));
}

#[test]
fn test_merge_missing_pages_root_is_refused() {
    let mut bad = make_doc(1);
    bad.trailer.clear();
    assert_eq!(
        merge_pdfs(vec![bad, make_doc(1)]),
        Err(PdfError::MissingPagesRoot)
    );
}

#[test]
fn test_merge_duplicate_ids_are_refused() {
    let mut bad = make_doc(1);
    bad.objects.push((oid(1), Object::Null));
    assert_eq!(
        merge_pdfs(vec![bad, make_doc(1)]),
        Err(PdfError::InvalidIds)
    );
}

#[test]
fn test_merge_dangling_reference_is_refused() {
    let mut bad = make_doc(1);
    bad.objects.push((oid(9), Object::Reference(oid(99))));
    bad.max_id = 9;
    assert_eq!(
        merge_pdfs(vec![make_doc(1), bad]),
        Err(PdfError::DanglingReference)
    );
}

#[test]
fn test_merge_cyclic_page_tree_is_refused() {
    let mut bad = make_doc(1);
    // A pages node that lists itself as a kid loops forever.
    bad.objects[1] = (
        oid(2),
        dict(vec![
            (b"Type".as_slice(), name(b"Pages")),
            (b"Kids", Object::Array(vec![Object::Reference(oid(2))])),
            (b"Count", Object::Integer(1)),
        ]),
    );
    assert_eq!(
        merge_pdfs(vec![bad, make_doc(1)]),
        Err(PdfError::MalformedPageTree)
    );
}

#[test]
fn test_merge_id_space_exhaustion_is_refused() {
    let mut base = make_doc(1);
    base.max_id = u32::MAX - 1;
    assert_eq!(
        merge_pdfs(vec![base, make_doc(1)]),
        Err(PdfError::TooManyObjects)
    );
}

#[test]
fn test_delete_middle_page_keeps_first_and_third() {
    let mut doc = make_doc(3);
    delete_pages(&mut doc, &vec![2]).unwrap();
    assert_eq!(page_ids(&doc).unwrap(), vec![oid(3), oid(5)]);
    assert!(check_wf(&doc));
    assert_eq!(root_count_of(&doc), 2);
}

#[test]
fn test_delete_two_pages_counts_down() {
    let mut doc = make_doc(3);
    delete_pages(&mut doc, &vec![1, 3]).unwrap();
    assert_eq!(page_ids(&doc).unwrap(), vec![oid(4)]);
    assert_eq!(root_count_of(&doc), 1);
}

#[test]
fn test_delete_rejects_page_zero() {
    let mut doc = make_doc(3);
    let before = make_doc(3);
    assert_eq!(
        delete_pages(&mut doc, &vec![0]),
        Err(PdfError::InvalidPageNumber(0))
    );
    assert_eq!(doc, before);
}

#[test]
fn test_delete_rejects_page_beyond_count() {
    let mut doc = make_doc(3);
    assert_eq!(
        delete_pages(&mut doc, &vec![4]),
        Err(PdfError::InvalidPageNumber(4))
    );
}

#[test]
fn test_delete_rejects_removing_every_page() {
    let mut doc = make_doc(3);
    assert_eq!(
        delete_pages(&mut doc, &vec![1, 2, 3]),
        Err(PdfError::CannotDeleteAllPages)
    );
    assert_eq!(page_ids(&doc).unwrap().len(), 3);
}

#[test]
fn test_watermark_named_object_is_removed() {
    let mut doc = make_doc(1);
    doc.objects.push((
        oid(10),
        dict(vec![(b"Name".as_slice(), name(b"Watermark1"))]),
    ));
    doc.max_id = 10;
    let before_len = doc.objects.len();
    let res = remove_watermark(&mut doc).unwrap();
    assert_eq!(res.items_removed, 1);
    assert!(res.success);
    assert_eq!(
        res.message,
        "Found and removed 1 potential watermark element(s). Please check the output file."
    );
    assert_eq!(doc.objects.len(), before_len - 1);
}

#[test]
fn test_watermark_clean_document_is_untouched() {
    let mut doc = make_doc(1);
    let before_len = doc.objects.len();
    let res = remove_watermark(&mut doc).unwrap();
    assert_eq!(res.items_removed, 0);
    assert!(!res.success);
    assert_eq!(
        res.message,
        "No obvious watermark elements were found. The watermark may be embedded in the page content, which cannot be easily removed."
    );
    assert_eq!(doc.objects.len(), before_len);
}

#[test]
fn test_watermark_annotation_is_swept() {
    let mut doc = make_doc(1);
    // The page carries two annotations: a watermark overlay and a note.
    doc.objects[2] = (
        oid(3),
        dict(vec![
            (b"Type".as_slice(), name(b"Page")),
            (b"Parent", Object::Reference(oid(2))),
            (
                b"Annots",
                Object::Array(vec![Object::Reference(oid(10)), Object::Reference(oid(11))]),
            ),
        ]),
    );
    doc.objects.push((
        oid(10),
        dict(vec![
            (b"Type".as_slice(), name(b"Annot")),
            (b"Subtype", name(b"Watermark")),
        ]),
    ));
    doc.objects.push((
        oid(11),
        dict(vec![
            (b"Type".as_slice(), name(b"Annot")),
            (b"Subtype", name(b"Text")),
        ]),
    ));
    doc.max_id = 11;
    let res = remove_watermark(&mut doc).unwrap();
    // The overlay counts once as a removed object and once as a dropped
    // annotation entry.
    assert_eq!(res.items_removed, 2);
    assert!(res.success);
    let page = doc
        .objects
        .iter()
        .find(|(id, _)| *id == oid(3))
        .map(|(_, o)| o)
        .unwrap();
    if let Object::Dictionary(d) = page {
        let annots = d.iter().find(|(k, _)| k == b"Annots").map(|(_, v)| v).unwrap();
        assert_eq!(annots, &Object::Array(vec![Object::Reference(oid(11))]));
    } else {
        panic!("page is not a dictionary");
    }
}

#[test]
fn test_info_reads_pages_title_and_author() {
    let mut doc = make_doc(2);
    doc.objects.push((
        oid(9),
        dict(vec![
            (
                b"Title".as_slice(),
                Object::Str(b"A Tale".to_vec(), StrFormat::Literal),
            ),
            (
                b"Author".as_slice(),
                Object::Str(vec![0x41, 0xff], StrFormat::Literal),
            ),
        ]),
    ));
    doc.max_id = 9;
    doc.trailer.push((b"Info".to_vec(), Object::Reference(oid(9))));
    let info = get_pdf_info(&doc, "a.pdf").unwrap();
    assert_eq!(
        info,
        PdfInfo {
            path: "a.pdf".to_string(),
            pages: 2,
            title: Some("A Tale".to_string()),
            // The ill-formed byte decays to the replacement character.
            author: Some("A\u{FFFD}".to_string()),
        }
    );
}

#[test]
fn test_info_without_info_dictionary() {
    let doc = make_doc(4);
    let info = get_pdf_info(&doc, "b.pdf").unwrap();
    assert_eq!(info.pages, 4);
    assert_eq!(info.title, None);
    assert_eq!(info.author, None);
}

#[test]
fn test_watermark_count_renders_in_decimal() {
    let mut doc = make_doc(1);
    for i in 0..12u32 {
        doc.objects.push((
            oid(20 + i),
            dict(vec![(b"Name".as_slice(), name(b"DraftStamp"))]),
        ));
    }
    doc.max_id = 31;
    let res = remove_watermark(&mut doc).unwrap();
    assert_eq!(res.items_removed, 12);
    assert_eq!(
        res.message,
        "Found and removed 12 potential watermark element(s). Please check the output file."
    );
}

#[test]
fn test_merge_rewrites_internal_references() {
    let merged = merge_pdfs(vec![make_doc(1), make_doc(1)]).unwrap();
    // The source's page was its third object, so it lands at number 6
    // above the base's maximum of 3; its Parent must now point at the
    // copy of the source's pages node, number 5.
    let copied_page = merged
        .objects
        .iter()
        .find(|(id, _)| *id == oid(6))
        .map(|(_, o)| o)
        .unwrap();
    if let Object::Dictionary(d) = copied_page {
        let parent = d.iter().find(|(k, _)| k == b"Parent").map(|(_, v)| v).unwrap();
        assert_eq!(parent, &Object::Reference(oid(5)));
    } else {
        panic!("copied page is not a dictionary");
    }
}

#[test]
fn test_watermark_stream_name_is_removed() {
    let mut doc = make_doc(1);
    doc.objects.push((
        oid(10),
        Object::Stream(
            vec![(b"Name".to_vec(), name(b"OverlayLayer"))],
            b"content".to_vec(),
        ),
    ));
    doc.max_id = 10;
    let res = remove_watermark(&mut doc).unwrap();
    assert_eq!(res.items_removed, 1);
    assert!(doc.objects.iter().all(|(id, _)| *id != oid(10)));
}
