use vstd::prelude::*;

verus! {

use vstd::string::StringExecFns;
use crate::objects::Object;
use crate::objects::ascii_view;
use crate::objects::str_bytes;
use crate::document::Document;
use crate::document::PdfError;
use crate::document::lookup;
use crate::document::dict_lookup;
use crate::document::ref_value;
use crate::document::spec_page_seq;
use crate::document::spec_page_count;

/// The `Info` key.
pub open spec fn k_info() -> Seq<u8> {
    ascii_view("Info"@)
}

/// The `Title` key.
pub open spec fn k_title() -> Seq<u8> {
    ascii_view("Title"@)
}

/// The `Author` key.
pub open spec fn k_author() -> Seq<u8> {
    ascii_view("Author"@)
}

pub fn key_info() -> (r: Vec<u8>)
    ensures
        r@ == k_info(),
{
    proof {
        reveal_strlit("Info");
    }
    str_bytes("Info")
}

pub fn key_title() -> (r: Vec<u8>)
    ensures
        r@ == k_title(),
{
    proof {
        reveal_strlit("Title");
    }
    str_bytes("Title")
}

pub fn key_author() -> (r: Vec<u8>)
    ensures
        r@ == k_author(),
{
    proof {
        reveal_strlit("Author");
    }
    str_bytes("Author")
}

/// The characters that stand for a byte string after lossy UTF-8
/// decoding; they depend on the bytes alone.
pub uninterp spec fn lossy_utf8(b: Seq<u8>) -> Seq<char>;

/// Relies on `String::from_utf8_lossy` from std: decodes UTF-8, replacing
/// ill-formed sequences with the replacement character; the result depends
/// on the bytes alone.
#[verifier::external_body]
fn utf8_lossy(b: &Vec<u8>) -> (r: String)
    ensures
        r@ == lossy_utf8(b@),
{
    String::from_utf8_lossy(b.as_slice()).into_owned()
}

/// What a document reports about itself.
#[derive(Debug, PartialEq, Eq)]
pub struct PdfInfo {
    pub path: String,
    pub pages: usize,
    pub title: Option<String>,
    pub author: Option<String>,
}

/// The document information dictionary: the object the trailer's `Info`
/// reference names, when it is a dictionary.
pub open spec fn info_dict(d: Document) -> Option<Seq<(Vec<u8>, Object)>> {
    match ref_value(d.trailer@, k_info()) {
        Some(iid) => match lookup(d.objects@, iid) {
            Some(Object::Dictionary(i)) => Some(i@),
            _ => None,
        },
        None => None,
    }
}

/// The bytes of one string-valued entry of the information dictionary.
pub open spec fn info_text(d: Document, key: Seq<u8>) -> Option<Seq<u8>> {
    match info_dict(d) {
        Some(i) => match dict_lookup(i, key) {
            Some(Object::Str(b, _)) => Some(b@),
            _ => None,
        },
        None => None,
    }
}

/// Reads the page count and the best-effort title and author of a
/// document.  A missing or malformed information dictionary leaves the
/// title and author absent; only a page tree too deep to walk is an error.
pub fn get_pdf_info(doc: &Document, path: &str) -> (r: Result<PdfInfo, PdfError>)
    ensures
        r is Err <==> spec_page_seq(*doc) is None,
        r is Err ==> r == Err::<PdfInfo, PdfError>(PdfError::MalformedPageTree),
        r matches Ok(info) ==> {
            &&& info.path@ == path@
            &&& info.pages == spec_page_count(*doc)
            &&& (match info_text(*doc, k_title()) {
                Some(b) => info.title matches Some(s) && s@ == lossy_utf8(b),
                None => info.title is None,
            })
            &&& (match info_text(*doc, k_author()) {
                Some(b) => info.author matches Some(s) && s@ == lossy_utf8(b),
                None => info.author is None,
            })
        },
{
    let pages = match crate::document::page_ids(doc) {
        Ok(v) => v,
        Err(_) => {
            return Err(PdfError::MalformedPageTree);
        },
    };
    let ikey = key_info();
    let tkey = key_title();
    let akey = key_author();
    let mut title: Option<String> = None;
    let mut author: Option<String> = None;
    match crate::document::dict_get(&doc.trailer, &ikey) {
        Some(Object::Reference(iid)) => {
            match crate::document::get_object(&doc.objects, *iid) {
                Some(Object::Dictionary(i)) => {
                    match crate::document::dict_get(i, &tkey) {
                        Some(Object::Str(b, _)) => {
                            title = Some(utf8_lossy(b));
                        },
                        _ => {},
                    }
                    match crate::document::dict_get(i, &akey) {
                        Some(Object::Str(b, _)) => {
                            author = Some(utf8_lossy(b));
                        },
                        _ => {},
                    }
                },
                _ => {},
            }
        },
        _ => {},
    }
    Ok(PdfInfo { path: path.to_owned(), pages: pages.len(), title, author })
}

} // verus!
