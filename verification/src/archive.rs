//! Reading a DOCX file held in memory: its `word/document.xml` member,
//! taken from the ZIP archive, and the document it describes.

use vstd::prelude::*;
use std::io::{Cursor, Read};
use crate::document::Document;
use crate::docx::{DocxOutcome, docx_outcome, parse_document};
use crate::xml::xml_event_stream;

verus! {

/// What reading one member of a ZIP archive gives.
#[derive(Debug)]
pub enum ZipMember {
    /// The member's text.
    Text(String),
    /// The archive has no member of that name.
    Missing,
    /// The bytes are not a readable archive; the error's message.
    ArchiveError(String),
    /// The member could not be read as text; the error's message.
    ReadError(String),
}

pub enum ZipMemberView {
    Text(Seq<char>),
    Missing,
    ArchiveError(Seq<char>),
    ReadError(Seq<char>),
}

impl View for ZipMember {
    type V = ZipMemberView;

    open spec fn view(&self) -> ZipMemberView {
        match self {
            ZipMember::Text(t) => ZipMemberView::Text(t@),
            ZipMember::Missing => ZipMemberView::Missing,
            ZipMember::ArchiveError(e) => ZipMemberView::ArchiveError(e@),
            ZipMember::ReadError(e) => ZipMemberView::ReadError(e@),
        }
    }
}

/// What the `zip` crate reads from an archive's bytes for the member of
/// the given name: a function of the bytes and the name alone.
pub uninterp spec fn zip_member_text(archive: Seq<u8>, name: Seq<char>) -> ZipMemberView;

/// Opens the archive with `zip::ZipArchive::new` over the bytes, looks the
/// member up with `by_name` (any failure there counts as missing) and
/// reads it with `read_to_string`; what comes out is left to the name.
#[verifier::external_body]
fn read_zip_member(archive: &[u8], name: &str) -> (r: ZipMember)
    ensures
        r@ == zip_member_text(archive@, name@),
{
    let mut zip = match zip::ZipArchive::new(Cursor::new(archive)) {
        Ok(z) => z,
        Err(e) => return ZipMember::ArchiveError(e.to_string()),
    };
    let mut file = match zip.by_name(name) {
        Ok(f) => f,
        Err(_) => return ZipMember::Missing,
    };
    let mut text = String::new();
    match file.read_to_string(&mut text) {
        Ok(_) => ZipMember::Text(text),
        Err(e) => ZipMember::ReadError(e.to_string()),
    }
}

/// The name of the member that holds a DOCX file's main text.
pub open spec fn document_member() -> Seq<char> {
    "word/document.xml"@
}

/// The message for an archive without the main text.
pub open spec fn missing_document_message() -> Seq<char> {
    "DOCX does not contain word/document.xml"@
}

/// What reading a DOCX file gives once its main member was read: the
/// document, or an error, or `None` where reading the XML cannot go on
/// (a `w:color` value would be sliced inside a character).
pub open spec fn docx_result(member: ZipMemberView, r: Option<Result<Document, String>>) -> bool {
    match member {
        ZipMemberView::Text(x) => match docx_outcome(xml_event_stream(x)) {
            DocxOutcome::Parsed(b) => r matches Some(Ok(d)) && d@ == b,
            DocxOutcome::Failed(m) => r matches Some(Err(e)) && e@ == m,
            DocxOutcome::Panics => r is None,
        },
        ZipMemberView::Missing => r matches Some(Err(e)) && e@ == missing_document_message(),
        ZipMemberView::ArchiveError(m) => r matches Some(Err(e)) && e@ == m,
        ZipMemberView::ReadError(m) => r matches Some(Err(e)) && e@ == m,
    }
}

/// The document a DOCX file's main member describes.
pub fn docx_from_member(member: ZipMember) -> (r: Option<Result<Document, String>>)
    ensures
        docx_result(member@, r),
{
    match member {
        ZipMember::Text(xml) => parse_document(xml.as_str()),
        ZipMember::Missing => {
            proof { reveal_strlit("DOCX does not contain word/document.xml"); }
            Some(Err("DOCX does not contain word/document.xml".to_owned()))
        },
        ZipMember::ArchiveError(e) => Some(Err(e)),
        ZipMember::ReadError(e) => Some(Err(e)),
    }
}

/// Reads a DOCX file from its bytes: the document of its
/// `word/document.xml` member, or the error that stopped reading.
pub fn read_docx(archive: &[u8]) -> (r: Option<Result<Document, String>>)
    ensures
        docx_result(zip_member_text(archive@, document_member()), r),
{
    proof { reveal_strlit("word/document.xml"); }
    let member = read_zip_member(archive, "word/document.xml");
    docx_from_member(member)
}

} // verus!
