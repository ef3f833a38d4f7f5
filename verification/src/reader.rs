//! The token source that reads a document held in memory with quick-xml.

use vstd::prelude::*;
use quick_xml::events::Event;
use crate::source::TokenSource;
use crate::token::{Token, XmlAttribute, XmlToken};

verus! {

/// `quick_xml::Reader`, taken as it is: nothing inside it is looked at.
#[verifier::external_type_specification]
#[verifier::external_body]
#[verifier::reject_recursive_types(R)]
pub struct ExReader<R>(quick_xml::Reader<R>);

/// The tokens that a quick-xml reader over a byte slice has yet to yield, in
/// order, up to the end of its input. A place that quick-xml reports as an
/// error stands in the sequence as `Token::Malformed`.
pub uninterp spec fn pending_tokens(reader: quick_xml::Reader<&[u8]>) -> Seq<Token>;

/// The tokens of a whole document, as a fresh quick-xml reader with its
/// default settings yields them.
pub uninterp spec fn document_tokens(document: Seq<u8>) -> Seq<Token>;

/// `quick_xml::Reader::from_reader` on a byte slice: a reader at the start of
/// the document, with the default settings. All of the document's tokens are
/// still to come.
#[verifier::external_body]
fn open_reader<'a>(document: &'a [u8]) -> (reader: quick_xml::Reader<&'a [u8]>)
    ensures
        pending_tokens(reader) == document_tokens(document@),
{
    quick_xml::Reader::from_reader(document)
}

/// `quick_xml::Reader::read_event` on a byte slice, with the event turned
/// into a token: the reader yields the first of its pending tokens and keeps
/// the rest, or is at the end of its input and stays there. Names, attribute
/// names and values and text are copied as they stand in the input. An error
/// of the reader, or of the attribute parser on a start tag, gives
/// `XmlToken::Malformed`.
#[verifier::external_body]
fn read_token(reader: &mut quick_xml::Reader<&[u8]>) -> (token: Option<XmlToken>)
    ensures
        match token {
            Some(t) => {
                &&& pending_tokens(*old(reader)).len() > 0
                &&& t@ == pending_tokens(*old(reader))[0]
                &&& pending_tokens(*final(reader)) == pending_tokens(*old(reader)).skip(1)
            },
            None => {
                &&& pending_tokens(*old(reader)).len() == 0
                &&& pending_tokens(*final(reader)).len() == 0
            },
        },
{
    Some(match reader.read_event() {
        Ok(Event::Start(e)) => match e.attributes().map(|a| a.ok().map(|a| XmlAttribute { name: a.key.0.to_vec(), value: a.value.to_vec() })).collect() {
            Some(attributes) => XmlToken::StartElement { name: e.name().0.to_vec(), attributes },
            None => XmlToken::Malformed,
        },
        Ok(Event::End(e)) => XmlToken::EndElement { name: e.name().0.to_vec() },
        Ok(Event::Text(e)) => XmlToken::Text { bytes: e.to_vec() },
        Ok(Event::Eof) => return None,
        Ok(_) => XmlToken::Other,
        Err(_) => XmlToken::Malformed,
    })
}

/// A token source over one XML document held in memory. It reads the
/// document lazily, one token per call.
pub struct XmlReader<'a> {
    reader: quick_xml::Reader<&'a [u8]>,
}

impl<'a> XmlReader<'a> {
    /// A source at the start of `document`.
    pub fn new(document: &'a [u8]) -> (source: XmlReader<'a>)
        ensures
            source.remaining() == document_tokens(document@),
    {
        XmlReader { reader: open_reader(document) }
    }
}

impl<'a> TokenSource for XmlReader<'a> {
    closed spec fn remaining(&self) -> Seq<Token> {
        pending_tokens(self.reader)
    }

    fn next_token(&mut self) -> (token: Option<XmlToken>) {
        read_token(&mut self.reader)
    }
}

} // verus!
