//! The cursor: a forward-only position in a token source, and the search for
//! landmarks from that position.

use vstd::prelude::*;
use vstd::string::StringSliceAdditionalSpecFns;
use vstd::string::StringExecFns;
use crate::source::TokenSource;
use crate::text::{bytes_eq, cell_text, decode_cell};
use crate::token::{attributes_view, Attribute, Token, XmlAttribute, XmlToken};

verus! {

/// What a seek looks for: the next start tag named `start`, with the
/// attribute `attribute` if one is given, and the end tag named `boundary`
/// at which the search is given up.
#[derive(Clone, Copy, Debug)]
pub struct Landmark<'a> {
    pub start: &'a str,
    pub boundary: &'a str,
    pub attribute: Option<(&'a str, &'a str)>,
}

/// The model of a landmark: the names and the attribute as bytes.
pub struct LandmarkSpec {
    pub start: Seq<u8>,
    pub boundary: Seq<u8>,
    pub attribute: Option<Attribute>,
}

impl<'a> View for Landmark<'a> {
    type V = LandmarkSpec;

    open spec fn view(&self) -> LandmarkSpec {
        LandmarkSpec {
            start: self.start.spec_bytes(),
            boundary: self.boundary.spec_bytes(),
            attribute: match self.attribute {
                Some((name, value)) => Some((name.spec_bytes(), value.spec_bytes())),
                None => None,
            },
        }
    }
}

/// Why a document could not be read as far as asked.
#[derive(Clone, Debug, PartialEq, Eq)]
pub enum XmlError {
    /// The search ran into its boundary, or into the end of the document,
    /// before a start tag `start` (with `attribute`, if any) came.
    NotFound { start: String, attribute: Option<(String, String)> },
    /// The document is not well-formed XML at the place that was read.
    Malformed,
    /// The title of the edition document names no version.
    NoVersion,
}

/// The model of an error: what was not found, as text.
pub enum Failure {
    NotFound { start: Seq<char>, attribute: Option<(Seq<char>, Seq<char>)> },
    Malformed,
    NoVersion,
}

impl View for XmlError {
    type V = Failure;

    open spec fn view(&self) -> Failure {
        match *self {
            XmlError::NotFound { start, attribute } => Failure::NotFound {
                start: start@,
                attribute: match attribute {
                    Some((name, value)) => Some((name@, value@)),
                    None => None,
                },
            },
            XmlError::Malformed => Failure::Malformed,
            XmlError::NoVersion => Failure::NoVersion,
        }
    }
}

impl<'a> Landmark<'a> {
    /// The failure of a search for this landmark that did not find it.
    pub open spec fn not_found(&self) -> Failure {
        Failure::NotFound {
            start: self.start@,
            attribute: match self.attribute {
                Some((name, value)) => Some((name@, value@)),
                None => None,
            },
        }
    }
}

impl XmlError {
    /// The error of a search for `landmark` that did not find it.
    pub fn not_found(landmark: &Landmark) -> (error: XmlError)
        ensures
            error@ == landmark.not_found(),
    {
        XmlError::NotFound {
            start: String::from_str(landmark.start),
            attribute: match landmark.attribute {
                Some((name, value)) => Some((String::from_str(name), String::from_str(value))),
                None => None,
            },
        }
    }

    /// The text of the error's message.
    pub open spec fn message_text(failure: Failure) -> Seq<char> {
        match failure {
            Failure::NotFound { start, attribute: Some((name, value)) } => "Xml element <"@
                + start + " ... "@ + name + " = \""@ + value + "\"> not found"@,
            Failure::NotFound { start, attribute: None } => "Xml element <"@ + start
                + "> not found"@,
            Failure::Malformed => "Xml document is malformed"@,
            Failure::NoVersion => "Xml document names no version"@,
        }
    }

    /// The error as a message for the user.
    pub fn message(&self) -> (text: String)
        ensures
            text@ == Self::message_text(self@),
    {
        match self {
            XmlError::NotFound { start, attribute: Some((name, value)) } => {
                let mut text = String::from_str("Xml element <");
                text.append(start.as_str());
                text.append(" ... ");
                text.append(name.as_str());
                text.append(" = \"");
                text.append(value.as_str());
                text.append("\"> not found");
                text
            },
            XmlError::NotFound { start, attribute: None } => {
                let mut text = String::from_str("Xml element <");
                text.append(start.as_str());
                text.append("> not found");
                text
            },
            XmlError::Malformed => String::from_str("Xml document is malformed"),
            XmlError::NoVersion => String::from_str("Xml document names no version"),
        }
    }
}

/// Whether `token` is the start tag that `landmark` describes.
pub open spec fn is_landmark_start(token: Token, landmark: LandmarkSpec) -> bool {
    match token {
        Token::Start { name, attributes } => {
            &&& name == landmark.start
            &&& match landmark.attribute {
                Some(attribute) => attributes.contains(attribute),
                None => true,
            }
        },
        _ => false,
    }
}

/// Whether `token` is the end tag at which a search for `landmark` gives up.
pub open spec fn is_landmark_boundary(token: Token, landmark: LandmarkSpec) -> bool {
    match token {
        Token::End { name } => name == landmark.boundary,
        _ => false,
    }
}

/// Whether a search for `landmark` stops at `token`.
pub open spec fn ends_seek(token: Token, landmark: LandmarkSpec) -> bool {
    is_landmark_start(token, landmark) || is_landmark_boundary(token, landmark)
        || token is Malformed
}

/// The number of tokens that a search for `landmark` passes over before the
/// token at which it stops; the length of `tokens` if it stops at none.
pub open spec fn seek_length(tokens: Seq<Token>, landmark: LandmarkSpec) -> nat
    decreases tokens.len(),
{
    if tokens.len() == 0 || ends_seek(tokens[0], landmark) {
        0
    } else {
        1 + seek_length(tokens.skip(1), landmark)
    }
}

/// How a search ends.
pub enum SeekOutcome {
    /// At the start tag of the landmark.
    Found,
    /// At the boundary, or at the end of the stream.
    NotFound,
    /// At a place where the document is malformed.
    Malformed,
}

/// How a search for `landmark` in `tokens` ends.
pub open spec fn seek_outcome(tokens: Seq<Token>, landmark: LandmarkSpec) -> SeekOutcome {
    let n = seek_length(tokens, landmark) as int;
    if n < tokens.len() && is_landmark_start(tokens[n], landmark) {
        SeekOutcome::Found
    } else if n < tokens.len() && tokens[n] is Malformed {
        SeekOutcome::Malformed
    } else {
        SeekOutcome::NotFound
    }
}

/// The tokens that are left after a search for `landmark` in `tokens`: those
/// behind the token at which the search stopped.
pub open spec fn seek_rest(tokens: Seq<Token>, landmark: LandmarkSpec) -> Seq<Token> {
    let n = seek_length(tokens, landmark) as int;
    if n < tokens.len() {
        tokens.skip(n + 1)
    } else {
        Seq::empty()
    }
}

/// `seek_length` is the index of the first token at which the search stops.
pub proof fn lemma_seek_length(tokens: Seq<Token>, landmark: LandmarkSpec)
    ensures
        seek_length(tokens, landmark) <= tokens.len(),
        forall|i: int|
            0 <= i < seek_length(tokens, landmark) ==> !ends_seek(#[trigger] tokens[i], landmark),
        seek_length(tokens, landmark) < tokens.len() ==> ends_seek(
            tokens[seek_length(tokens, landmark) as int],
            landmark,
        ),
    decreases tokens.len(),
{
    if tokens.len() == 0 || ends_seek(tokens[0], landmark) {
    } else {
        let rest = tokens.skip(1);
        lemma_seek_length(rest, landmark);
        assert forall|i: int| 0 <= i < seek_length(tokens, landmark) implies !ends_seek(
            #[trigger] tokens[i],
            landmark,
        ) by {
            if i > 0 {
                assert(tokens[i] == rest[i - 1]);
            }
        }
        let n = seek_length(rest, landmark) as int;
        if n < rest.len() {
            assert(tokens[n + 1] == rest[n]);
        }
    }
}

/// The first index at which a search stops is `seek_length`.
pub proof fn lemma_seek_length_is(tokens: Seq<Token>, landmark: LandmarkSpec, n: int)
    requires
        0 <= n <= tokens.len(),
        forall|i: int| 0 <= i < n ==> !ends_seek(#[trigger] tokens[i], landmark),
        n < tokens.len() ==> ends_seek(tokens[n], landmark),
    ensures
        seek_length(tokens, landmark) == n,
{
    lemma_seek_length(tokens, landmark);
    let m = seek_length(tokens, landmark) as int;
    if m < n {
        assert(!ends_seek(tokens[m], landmark));
    } else if n < m {
        assert(!ends_seek(tokens[n], landmark));
    }
}

/// A token at which the search does not stop changes neither its outcome
/// nor what is left after it.
pub proof fn lemma_seek_passes(tokens: Seq<Token>, landmark: LandmarkSpec)
    requires
        tokens.len() > 0,
        !ends_seek(tokens[0], landmark),
    ensures
        seek_outcome(tokens, landmark) == seek_outcome(tokens.skip(1), landmark),
        seek_rest(tokens, landmark) == seek_rest(tokens.skip(1), landmark),
{
    let rest = tokens.skip(1);
    let n = seek_length(rest, landmark) as int;
    lemma_seek_length(rest, landmark);
    assert(seek_length(tokens, landmark) == n + 1);
    if n < rest.len() {
        assert(tokens[n + 1] == rest[n]);
        assert(tokens.skip(n + 2) =~= rest.skip(n + 1));
    }
}

/// A start tag of the landmark that comes before any boundary and any
/// malformed place is found: the search succeeds at the first such start
/// tag, whose index is returned, and leaves exactly the tokens behind it.
pub proof fn law_seek_finds_start(tokens: Seq<Token>, landmark: LandmarkSpec, i: int) -> (k: int)
    requires
        0 <= i < tokens.len(),
        is_landmark_start(tokens[i], landmark),
        forall|j: int|
            0 <= j < i ==> !is_landmark_boundary(#[trigger] tokens[j], landmark)
                && !(tokens[j] is Malformed),
    ensures
        0 <= k <= i,
        is_landmark_start(tokens[k], landmark),
        forall|j: int| 0 <= j < k ==> !is_landmark_start(#[trigger] tokens[j], landmark),
        seek_outcome(tokens, landmark) is Found,
        seek_rest(tokens, landmark) == tokens.skip(k + 1),
{
    lemma_seek_length(tokens, landmark);
    let k = seek_length(tokens, landmark) as int;
    if k > i {
        assert(!ends_seek(tokens[i], landmark));
    }
    assert(ends_seek(tokens[k], landmark));
    if k < i {
        assert(!is_landmark_boundary(tokens[k], landmark) && !(tokens[k] is Malformed));
    }
    assert forall|j: int| 0 <= j < k implies !is_landmark_start(#[trigger] tokens[j], landmark) by {
        assert(!ends_seek(tokens[j], landmark));
    }
    k
}

/// A boundary that comes before any start tag of the landmark and any
/// malformed place ends the search: it fails as not found at the first
/// boundary, whose index is returned, and leaves exactly the tokens behind
/// that boundary.
pub proof fn law_seek_stops_at_boundary(tokens: Seq<Token>, landmark: LandmarkSpec, i: int) -> (k: int)
    requires
        0 <= i < tokens.len(),
        is_landmark_boundary(tokens[i], landmark),
        forall|j: int|
            0 <= j < i ==> !is_landmark_start(#[trigger] tokens[j], landmark)
                && !(tokens[j] is Malformed),
    ensures
        0 <= k <= i,
        is_landmark_boundary(tokens[k], landmark),
        forall|j: int| 0 <= j < k ==> !is_landmark_boundary(#[trigger] tokens[j], landmark),
        seek_outcome(tokens, landmark) is NotFound,
        seek_rest(tokens, landmark) == tokens.skip(k + 1),
{
    lemma_seek_length(tokens, landmark);
    let k = seek_length(tokens, landmark) as int;
    if k > i {
        assert(!ends_seek(tokens[i], landmark));
    }
    assert(ends_seek(tokens[k], landmark));
    if k < i {
        assert(!is_landmark_start(tokens[k], landmark) && !(tokens[k] is Malformed));
    }
    assert forall|j: int| 0 <= j < k implies !is_landmark_boundary(
        #[trigger] tokens[j],
        landmark,
    ) by {
        assert(!ends_seek(tokens[j], landmark));
    }
    k
}

/// A stream without a start tag of the landmark, a boundary or a malformed
/// place is read to its end, and the search fails as not found.
pub proof fn law_seek_fails_at_end(tokens: Seq<Token>, landmark: LandmarkSpec)
    requires
        forall|j: int| 0 <= j < tokens.len() ==> !ends_seek(#[trigger] tokens[j], landmark),
    ensures
        seek_outcome(tokens, landmark) is NotFound,
        seek_rest(tokens, landmark) == Seq::<Token>::empty(),
{
    lemma_seek_length_is(tokens, landmark, tokens.len() as int);
}

/// Whether the reading of a cell's text stops at `token`: at the end tag of
/// the cell, and at a malformed place.
pub open spec fn ends_cell(token: Token) -> bool {
    match token {
        Token::End { name } => name == "td".spec_bytes(),
        Token::Malformed => true,
        _ => false,
    }
}

/// What the reading of a cell's text comes to.
pub struct CellRead {
    /// The character data of the cell, all its text tokens in one.
    pub bytes: Seq<u8>,
    /// The tokens behind the one at which the reading stopped.
    pub rest: Seq<Token>,
    /// Whether the reading stopped at a malformed place.
    pub malformed: bool,
}

/// Reads the text of a cell from `tokens`: the bytes of all text tokens up
/// to the cell's end tag, a malformed place or the end of the stream.
pub open spec fn read_cell(tokens: Seq<Token>) -> CellRead
    decreases tokens.len(),
{
    if tokens.len() == 0 {
        CellRead { bytes: Seq::empty(), rest: Seq::empty(), malformed: false }
    } else if ends_cell(tokens[0]) {
        CellRead { bytes: Seq::empty(), rest: tokens.skip(1), malformed: tokens[0] is Malformed }
    } else {
        let tail = read_cell(tokens.skip(1));
        match tokens[0] {
            Token::Text { bytes } => CellRead {
                bytes: bytes + tail.bytes,
                rest: tail.rest,
                malformed: tail.malformed,
            },
            _ => tail,
        }
    }
}

/// Reading a cell never gives back more tokens than it was given.
pub proof fn lemma_read_cell_rest(tokens: Seq<Token>)
    ensures
        read_cell(tokens).rest.len() <= tokens.len(),
        tokens.len() > 0 ==> read_cell(tokens).rest.len() < tokens.len(),
    decreases tokens.len(),
{
    if tokens.len() > 0 && !ends_cell(tokens[0]) {
        lemma_read_cell_rest(tokens.skip(1));
    }
}

/// A search that stops at a token leaves fewer tokens than it was given.
pub proof fn lemma_seek_rest(tokens: Seq<Token>, landmark: LandmarkSpec)
    ensures
        seek_rest(tokens, landmark).len() <= tokens.len(),
        tokens.len() > 0 ==> seek_rest(tokens, landmark).len() < tokens.len(),
{
    lemma_seek_length(tokens, landmark);
}

/// The end of the end of a stream is an end of the stream.
pub proof fn lemma_suffix_of_suffix(a: Seq<Token>, b: Seq<Token>, c: Seq<Token>)
    requires
        a.is_suffix_of(b),
        b.is_suffix_of(c),
    ensures
        a.is_suffix_of(c),
{
    assert(a =~= c.subrange(c.len() - a.len(), c.len() as int)) by {
        assert forall|i: int| 0 <= i < a.len() implies a[i] == c[c.len() - a.len() + i] by {
            assert(a[i] == b.subrange(b.len() - a.len(), b.len() as int)[i]);
            assert(b[b.len() - a.len() + i] == c.subrange(c.len() - b.len(), c.len() as int)[b.len()
                - a.len() + i]);
        }
    }
}

/// A search only moves forward: what it leaves is an end of what it was
/// given.
pub proof fn law_seek_moves_forward(tokens: Seq<Token>, landmark: LandmarkSpec)
    ensures
        seek_rest(tokens, landmark).is_suffix_of(tokens),
{
    lemma_seek_length(tokens, landmark);
}

/// Reading a cell only moves forward: what it leaves is an end of what it
/// was given.
pub proof fn law_read_cell_moves_forward(tokens: Seq<Token>)
    ensures
        read_cell(tokens).rest.is_suffix_of(tokens),
    decreases tokens.len(),
{
    if tokens.len() > 0 && !ends_cell(tokens[0]) {
        law_read_cell_moves_forward(tokens.skip(1));
        assert(tokens.skip(1).is_suffix_of(tokens));
        lemma_suffix_of_suffix(read_cell(tokens.skip(1)).rest, tokens.skip(1), tokens);
    }
}

/// Whether `attributes` holds an attribute with this name and this value.
pub fn has_attribute(attributes: &Vec<XmlAttribute>, name: &[u8], value: &[u8]) -> (found: bool)
    ensures
        found == attributes_view(attributes@).contains((name@, value@)),
{
    let ghost model = attributes_view(attributes@);
    let mut i: usize = 0;
    while i < attributes.len()
        invariant
            i <= attributes@.len(),
            model == attributes_view(attributes@),
            forall|j: int| 0 <= j < i ==> model[j] != (name@, value@),
        decreases attributes@.len() - i,
    {
        if bytes_eq(attributes[i].name.as_slice(), name) && bytes_eq(
            attributes[i].value.as_slice(),
            value,
        ) {
            assert(model[i as int] == (name@, value@));
            return true;
        }
        i += 1;
    }
    false
}

/// Whether `token` is the start tag that `landmark` describes.
pub fn token_is_start(token: &XmlToken, landmark: &Landmark) -> (is_start: bool)
    ensures
        is_start == is_landmark_start(token@, landmark@),
{
    match token {
        XmlToken::StartElement { name, attributes } => {
            if bytes_eq(name.as_slice(), landmark.start.as_bytes()) {
                match landmark.attribute {
                    Some((key, value)) => has_attribute(
                        attributes,
                        key.as_bytes(),
                        value.as_bytes(),
                    ),
                    None => true,
                }
            } else {
                false
            }
        },
        _ => false,
    }
}

/// Whether `token` is the end tag at which a search for `landmark` gives up.
pub fn token_is_boundary(token: &XmlToken, landmark: &Landmark) -> (is_boundary: bool)
    ensures
        is_boundary == is_landmark_boundary(token@, landmark@),
{
    match token {
        XmlToken::EndElement { name } => bytes_eq(name.as_slice(), landmark.boundary.as_bytes()),
        _ => false,
    }
}

/// A forward-only position in a token source. Every operation starts where
/// the one before it stopped.
pub struct XmlCursor<S: TokenSource> {
    source: S,
}

impl<S: TokenSource> XmlCursor<S> {
    /// The tokens behind the cursor's position.
    pub closed spec fn remaining(&self) -> Seq<Token> {
        self.source.remaining()
    }

    /// A cursor at the position of `source`.
    pub fn new(source: S) -> (cursor: XmlCursor<S>)
        ensures
            cursor.remaining() == source.remaining(),
    {
        XmlCursor { source }
    }

    /// Hands out the token at the cursor's position and moves behind it.
    pub fn next_token(&mut self) -> (token: Option<XmlToken>)
        ensures
            match token {
                Some(t) => {
                    &&& old(self).remaining().len() > 0
                    &&& t@ == old(self).remaining()[0]
                    &&& final(self).remaining() == old(self).remaining().skip(1)
                },
                None => {
                    &&& old(self).remaining().len() == 0
                    &&& final(self).remaining().len() == 0
                },
            },
    {
        self.source.next_token()
    }

    /// Moves forward to just behind the next start tag that `landmark`
    /// describes. Gives up, as not found, at the end tag named by the
    /// landmark's boundary and at the end of the stream, and as malformed at
    /// a place where the document cannot be read. The cursor then stands
    /// behind the token at which the search stopped.
    pub fn seek(&mut self, landmark: &Landmark) -> (found: Result<(), XmlError>)
        ensures
            final(self).remaining() == seek_rest(old(self).remaining(), landmark@),
            match found {
                Ok(()) => seek_outcome(old(self).remaining(), landmark@) is Found,
                Err(XmlError::Malformed) => seek_outcome(old(self).remaining(), landmark@)
                    is Malformed,
                Err(error) => seek_outcome(old(self).remaining(), landmark@) is NotFound
                    && error@ == landmark.not_found(),
            },
    {
        let ghost tokens = self.remaining();
        loop
            invariant
                tokens == old(self).remaining(),
                seek_outcome(self.remaining(), landmark@) == seek_outcome(tokens, landmark@),
                seek_rest(self.remaining(), landmark@) == seek_rest(tokens, landmark@),
            decreases self.remaining().len(),
        {
            let ghost before = self.remaining();
            match self.next_token() {
                None => {
                    assert(self.remaining() =~= Seq::<Token>::empty());
                    return Err(XmlError::not_found(landmark));
                },
                Some(token) => {
                    if token_is_start(&token, landmark) {
                        return Ok(());
                    }
                    if token_is_boundary(&token, landmark) {
                        return Err(XmlError::not_found(landmark));
                    }
                    match token {
                        XmlToken::Malformed => {
                            return Err(XmlError::Malformed);
                        },
                        _ => {},
                    }
                    proof {
                        lemma_seek_passes(before, landmark@);
                    }
                },
            }
        }
    }

    /// Reads the text of the cell that the cursor stands in: all character
    /// data up to the cell's end tag or the end of the stream, decoded and
    /// without the white space around it. Fails at a malformed place. The
    /// cursor then stands behind the token at which the reading stopped.
    pub fn read_cell_text(&mut self) -> (text: Result<String, XmlError>)
        ensures
            final(self).remaining() == read_cell(old(self).remaining()).rest,
            match text {
                Ok(t) => {
                    &&& !read_cell(old(self).remaining()).malformed
                    &&& t@ == cell_text(read_cell(old(self).remaining()).bytes)
                },
                Err(error) => read_cell(old(self).remaining()).malformed && error is Malformed,
            },
    {
        let ghost tokens = self.remaining();
        let mut value: Vec<u8> = Vec::new();
        loop
            invariant_except_break
                value@ + read_cell(self.remaining()).bytes == read_cell(tokens).bytes,
                read_cell(self.remaining()).rest == read_cell(tokens).rest,
                read_cell(self.remaining()).malformed == read_cell(tokens).malformed,
            invariant
                tokens == old(self).remaining(),
            ensures
                tokens == old(self).remaining(),
                value@ == read_cell(tokens).bytes,
                self.remaining() == read_cell(tokens).rest,
                !read_cell(tokens).malformed,
            decreases self.remaining().len(),
        {
            let ghost before = self.remaining();
            let ghost so_far = value@;
            match self.next_token() {
                None => {
                    assert(self.remaining() =~= Seq::<Token>::empty());
                    assert(value@ + Seq::<u8>::empty() =~= value@);
                    break ;
                },
                Some(token) => {
                    match token {
                        XmlToken::Text { bytes } => {
                            let mut bytes = bytes;
                            value.append(&mut bytes);
                            assert((so_far + before[0]->Text_bytes) + read_cell(
                                before.skip(1),
                            ).bytes =~= so_far + (before[0]->Text_bytes + read_cell(
                                before.skip(1),
                            ).bytes));
                        },
                        XmlToken::EndElement { name } => {
                            if bytes_eq(name.as_slice(), "td".as_bytes()) {
                                assert(value@ + Seq::<u8>::empty() =~= value@);
                                break ;
                            }
                        },
                        XmlToken::Malformed => {
                            return Err(XmlError::Malformed);
                        },
                        _ => {},
                    }
                },
            }
        }
        Ok(decode_cell(value.as_slice()))
    }
}

} // verus!
