//! The tokens that a document is read as, and their mathematical model.

use vstd::prelude::*;

verus! {

/// One attribute of a start tag, name and value as they stand in the document.
#[derive(Clone, Debug, PartialEq, Eq)]
pub struct XmlAttribute {
    pub name: Vec<u8>,
    pub value: Vec<u8>,
}

/// One token of a document. The end of the stream is no token: a source
/// that has none left says so.
#[derive(Clone, Debug, PartialEq, Eq)]
pub enum XmlToken {
    /// `<name attr="value" ...>`
    StartElement { name: Vec<u8>, attributes: Vec<XmlAttribute> },
    /// `</name>`
    EndElement { name: Vec<u8> },
    /// Character data between tags, not unescaped.
    Text { bytes: Vec<u8> },
    /// Anything else that is well formed: an empty element, a comment, a
    /// CDATA section, a declaration, a processing instruction.
    Other,
    /// A place where the document could not be read as XML.
    Malformed,
}

/// The model of an attribute: its name and its value.
pub type Attribute = (Seq<u8>, Seq<u8>);

/// The model of a token.
pub enum Token {
    Start { name: Seq<u8>, attributes: Seq<Attribute> },
    End { name: Seq<u8> },
    Text { bytes: Seq<u8> },
    Other,
    Malformed,
}

impl View for XmlAttribute {
    type V = Attribute;

    open spec fn view(&self) -> Attribute {
        (self.name@, self.value@)
    }
}

/// The models of a list of attributes, in order.
pub open spec fn attributes_view(attributes: Seq<XmlAttribute>) -> Seq<Attribute> {
    attributes.map_values(|a: XmlAttribute| a@)
}

impl View for XmlToken {
    type V = Token;

    open spec fn view(&self) -> Token {
        match *self {
            XmlToken::StartElement { name, attributes } => Token::Start {
                name: name@,
                attributes: attributes_view(attributes@),
            },
            XmlToken::EndElement { name } => Token::End { name: name@ },
            XmlToken::Text { bytes } => Token::Text { bytes: bytes@ },
            XmlToken::Other => Token::Other,
            XmlToken::Malformed => Token::Malformed,
        }
    }
}

/// The models of a list of tokens, in order.
pub open spec fn tokens_view(tokens: Seq<XmlToken>) -> Seq<Token> {
    tokens.map_values(|t: XmlToken| t@)
}

} // verus!
