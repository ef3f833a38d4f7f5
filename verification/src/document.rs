//! Whole documents: which document is which part of the standard, which
//! edition the standard is, and the records of a document.

use vstd::prelude::*;
use crate::cursor::{seek_outcome, seek_rest, Failure, Landmark, SeekOutcome, XmlCursor, XmlError};
use crate::plan::{extract_tables, read_tables, reports, TablePlan};
use crate::reader::{document_tokens, XmlReader};
use crate::row::{records_view, DataItem};
use crate::source::TokenSource;
use crate::text::{after_last, lossy_text, text_after_last, utf8_lossy};
use crate::token::{Token, XmlToken};

verus! {

/// The landmark by which a document says which part of the standard it is:
/// a `book` element with this `xml:id`, before the end of the first title.
pub open spec fn part_landmark<'a>(part: &'a str) -> Landmark<'a> {
    Landmark { start: "book", boundary: "title", attribute: Some(("xml:id", part)) }
}

/// Whether a document with these tokens is the given part of the standard.
pub open spec fn tokens_are_part(tokens: Seq<Token>, part: &str) -> bool {
    seek_outcome(tokens, part_landmark(part)@) is Found
}

/// Whether the document behind the cursor is the given part of the
/// standard.
pub fn cursor_is_part<S: TokenSource>(cursor: &mut XmlCursor<S>, part: &str) -> (is_part: bool)
    ensures
        is_part == tokens_are_part(old(cursor).remaining(), part),
        final(cursor).remaining() == seek_rest(old(cursor).remaining(), part_landmark(part)@),
{
    let landmark = Landmark { start: "book", boundary: "title", attribute: Some(("xml:id", part)) };
    match cursor.seek(&landmark) {
        Ok(()) => true,
        Err(_) => false,
    }
}

/// Whether `document` is the given part of the standard.
pub fn is_part(document: &[u8], part: &str) -> (is_part: bool)
    ensures
        is_part == tokens_are_part(document_tokens(document@), part),
{
    let mut cursor = XmlCursor::new(XmlReader::new(document));
    cursor_is_part(&mut cursor, part)
}

/// The index of the first of `documents` that is the given part of the
/// standard.
pub fn find_document(documents: &Vec<Vec<u8>>, part: &str) -> (index: Option<usize>)
    ensures
        match index {
            Some(i) => {
                &&& i < documents@.len()
                &&& tokens_are_part(document_tokens(documents@[i as int]@), part)
                &&& forall|j: int|
                    0 <= j < i ==> !tokens_are_part(
                        document_tokens(#[trigger] documents@[j]@),
                        part,
                    )
            },
            None => forall|j: int|
                0 <= j < documents@.len() ==> !tokens_are_part(
                    document_tokens(#[trigger] documents@[j]@),
                    part,
                ),
        },
{
    let mut i: usize = 0;
    while i < documents.len()
        invariant
            i <= documents@.len(),
            forall|j: int|
                0 <= j < i ==> !tokens_are_part(document_tokens(#[trigger] documents@[j]@), part),
        decreases documents@.len() - i,
    {
        if is_part(documents[i].as_slice(), part) {
            return Some(i);
        }
        i += 1;
    }
    None
}

/// The landmark of the first title of a document.
pub open spec fn title_landmark() -> Landmark<'static> {
    Landmark { start: "title", boundary: "title", attribute: None }
}

/// The edition that a document with these tokens names: what stands behind
/// the last space of the text that follows the start of its first title.
pub open spec fn tokens_edition(tokens: Seq<Token>) -> Result<Seq<char>, Failure> {
    let in_title = seek_rest(tokens, title_landmark()@);
    match seek_outcome(tokens, title_landmark()@) {
        SeekOutcome::NotFound => Err(title_landmark().not_found()),
        SeekOutcome::Malformed => Err(Failure::Malformed),
        SeekOutcome::Found => if in_title.len() == 0 {
            Err(Failure::NoVersion)
        } else {
            match in_title[0] {
                Token::Text { bytes } => match after_last(lossy_text(bytes), ' ') {
                    Some(edition) => Ok(edition),
                    None => Err(Failure::NoVersion),
                },
                Token::Malformed => Err(Failure::Malformed),
                _ => Err(Failure::NoVersion),
            }
        },
    }
}

/// The tokens that are left after the edition was read: those behind the
/// token that follows the start of the first title.
pub open spec fn edition_rest(tokens: Seq<Token>) -> Seq<Token> {
    let in_title = seek_rest(tokens, title_landmark()@);
    if seek_outcome(tokens, title_landmark()@) is Found && in_title.len() > 0 {
        in_title.skip(1)
    } else {
        in_title
    }
}

/// Whether `result` is what `expected` says: the same text, or the error
/// of that failure.
pub open spec fn is_text_or_failure(
    result: Result<String, XmlError>,
    expected: Result<Seq<char>, Failure>,
) -> bool {
    match (result, expected) {
        (Ok(text), Ok(model)) => text@ == model,
        (Err(error), Err(failure)) => error@ == failure,
        _ => false,
    }
}

/// Reads the edition that the document behind the cursor names.
pub fn read_edition<S: TokenSource>(cursor: &mut XmlCursor<S>) -> (edition: Result<
    String,
    XmlError,
>)
    ensures
        is_text_or_failure(edition, tokens_edition(old(cursor).remaining())),
        final(cursor).remaining() == edition_rest(old(cursor).remaining()),
{
    let landmark = Landmark { start: "title", boundary: "title", attribute: None };
    match cursor.seek(&landmark) {
        Ok(()) => {},
        Err(error) => {
            return Err(error);
        },
    }
    let ghost in_title = cursor.remaining();
    let token = cursor.next_token();
    assert(in_title.len() == 0 ==> cursor.remaining() =~= in_title);
    match token {
        Some(XmlToken::Text { bytes }) => {
            let title = utf8_lossy(bytes.as_slice());
            match text_after_last(title.as_str(), ' ') {
                Some(edition) => Ok(edition),
                None => Err(XmlError::NoVersion),
            }
        },
        Some(XmlToken::Malformed) => Err(XmlError::Malformed),
        _ => Err(XmlError::NoVersion),
    }
}

/// The edition that `document`, the edition document of the standard,
/// names.
pub fn edition(document: &[u8]) -> (edition: Result<String, XmlError>)
    ensures
        is_text_or_failure(edition, tokens_edition(document_tokens(document@))),
{
    let mut cursor = XmlCursor::new(XmlReader::new(document));
    read_edition(&mut cursor)
}

/// Carries out `plan` on `document` and appends the records to `items`.
pub fn extract_document(document: &[u8], plan: &[TablePlan], items: &mut Vec<DataItem>) -> (result:
    Result<(), XmlError>)
    ensures
        records_view(final(items)@) == records_view(old(items)@) + read_tables(
            document_tokens(document@),
            plan@,
        ).records,
        reports(result, read_tables(document_tokens(document@), plan@).failure),
{
    let mut cursor = XmlCursor::new(XmlReader::new(document));
    extract_tables(&mut cursor, plan, items)
}

} // verus!
