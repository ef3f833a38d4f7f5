use dict_gen::cursor::{
    has_attribute, token_is_boundary, token_is_start, Landmark, XmlCursor, XmlError,
};
use dict_gen::reader::XmlReader;
use dict_gen::source::{TokenList, TokenSource};
use dict_gen::token::{XmlAttribute, XmlToken};

fn start(name: &str) -> XmlToken {
    XmlToken::StartElement { name: name.as_bytes().to_vec(), attributes: Vec::new() }
}

fn start_with(name: &str, key: &str, value: &str) -> XmlToken {
    XmlToken::StartElement {
        name: name.as_bytes().to_vec(),
        attributes: vec![XmlAttribute {
            name: key.as_bytes().to_vec(),
            value: value.as_bytes().to_vec(),
        }],
    }
}

fn end(name: &str) -> XmlToken {
    XmlToken::EndElement { name: name.as_bytes().to_vec() }
}

fn text(content: &str) -> XmlToken {
    XmlToken::Text { bytes: content.as_bytes().to_vec() }
}

fn cursor_over(tokens: Vec<XmlToken>) -> XmlCursor<TokenList> {
    XmlCursor::new(TokenList::new(tokens))
}

fn row_landmark() -> Landmark<'static> {
    Landmark { start: "tr", boundary: "tbody", attribute: None }
}

#[test]
fn token_list_hands_out_tokens_in_order() {
    let mut list = TokenList::new(vec![start("a"), text("x"), end("a")]);
    assert_eq!(list.next_token(), Some(start("a")));
    assert_eq!(list.next_token(), Some(text("x")));
    assert_eq!(list.next_token(), Some(end("a")));
    assert_eq!(list.next_token(), None);
    assert_eq!(list.next_token(), None);
}

#[test]
fn seek_finds_start_before_boundary() {
    let mut cursor = cursor_over(vec![
        text("\n"),
        start("para"),
        start("tr"),
        text("behind"),
        end("tbody"),
    ]);
    assert_eq!(cursor.seek(&row_landmark()), Ok(()));
    assert_eq!(cursor.next_token(), Some(text("behind")));
}

#[test]
fn seek_stops_at_boundary_before_start() {
    let mut cursor = cursor_over(vec![
        text("\n"),
        end("tbody"),
        start("tr"),
        text("next"),
    ]);
    assert_eq!(
        cursor.seek(&row_landmark()),
        Err(XmlError::NotFound { start: "tr".to_string(), attribute: None })
    );
    assert_eq!(cursor.next_token(), Some(start("tr")));
}

#[test]
fn seek_after_boundary_goes_on_from_there() {
    let mut cursor = cursor_over(vec![end("tbody"), start("tr"), text("next")]);
    assert!(cursor.seek(&row_landmark()).is_err());
    assert_eq!(cursor.seek(&row_landmark()), Ok(()));
    assert_eq!(cursor.next_token(), Some(text("next")));
}

#[test]
fn seek_fails_at_end_of_stream() {
    let mut cursor = cursor_over(vec![text("a"), start("td"), end("td")]);
    let landmark = Landmark { start: "tr", boundary: "", attribute: None };
    assert_eq!(
        cursor.seek(&landmark),
        Err(XmlError::NotFound { start: "tr".to_string(), attribute: None })
    );
    assert_eq!(cursor.next_token(), None);
}

#[test]
fn seek_on_empty_stream_is_not_found() {
    let mut cursor = cursor_over(Vec::new());
    assert!(matches!(cursor.seek(&row_landmark()), Err(XmlError::NotFound { .. })));
}

#[test]
fn seek_skips_same_named_start_without_the_attribute() {
    let mut cursor = cursor_over(vec![
        start_with("table", "xml:id", "table_5-1"),
        start("table"),
        end("table"),
        start_with("table", "xml:id", "table_6-1"),
        text("inside"),
    ]);
    let landmark =
        Landmark { start: "table", boundary: "", attribute: Some(("xml:id", "table_6-1")) };
    assert_eq!(cursor.seek(&landmark), Ok(()));
    assert_eq!(cursor.next_token(), Some(text("inside")));
}

#[test]
fn seek_matches_attribute_among_several() {
    let table = XmlToken::StartElement {
        name: b"table".to_vec(),
        attributes: vec![
            XmlAttribute { name: b"frame".to_vec(), value: b"all".to_vec() },
            XmlAttribute { name: b"xml:id".to_vec(), value: b"table_7-1".to_vec() },
        ],
    };
    let mut cursor = cursor_over(vec![table, text("inside")]);
    let landmark =
        Landmark { start: "table", boundary: "", attribute: Some(("xml:id", "table_7-1")) };
    assert_eq!(cursor.seek(&landmark), Ok(()));
    assert_eq!(cursor.next_token(), Some(text("inside")));
}

#[test]
fn seek_attribute_needs_name_and_value() {
    let mut cursor = cursor_over(vec![
        start_with("table", "id", "table_6-1"),
        start_with("table", "xml:id", "table_6-10"),
    ]);
    let landmark =
        Landmark { start: "table", boundary: "", attribute: Some(("xml:id", "table_6-1")) };
    assert_eq!(
        cursor.seek(&landmark),
        Err(XmlError::NotFound {
            start: "table".to_string(),
            attribute: Some(("xml:id".to_string(), "table_6-1".to_string())),
        })
    );
}

#[test]
fn seek_reports_malformed_place() {
    let mut cursor = cursor_over(vec![text("a"), XmlToken::Malformed, start("tr")]);
    assert_eq!(cursor.seek(&row_landmark()), Err(XmlError::Malformed));
    assert_eq!(cursor.next_token(), Some(start("tr")));
}

#[test]
fn seek_ignores_other_tokens_and_foreign_end_tags() {
    let mut cursor = cursor_over(vec![
        XmlToken::Other,
        end("para"),
        end("tr"),
        start("tr"),
    ]);
    assert_eq!(cursor.seek(&row_landmark()), Ok(()));
    assert_eq!(cursor.next_token(), None);
}

#[test]
fn not_found_messages() {
    let plain = XmlError::NotFound { start: "tbody".to_string(), attribute: None };
    assert_eq!(plain.message(), "Xml element <tbody> not found");
    let with_attribute = XmlError::NotFound {
        start: "table".to_string(),
        attribute: Some(("xml:id".to_string(), "table_6-1".to_string())),
    };
    assert_eq!(
        with_attribute.message(),
        "Xml element <table ... xml:id = \"table_6-1\"> not found"
    );
    assert_eq!(XmlError::Malformed.message(), "Xml document is malformed");
    assert_eq!(XmlError::NoVersion.message(), "Xml document names no version");
}

#[test]
fn read_cell_text_joins_text_and_trims() {
    let mut cursor = cursor_over(vec![
        text("\n  "),
        start("para"),
        text("Length to"),
        XmlToken::Other,
        text(" End"),
        end("para"),
        text("\n"),
        end("td"),
        text("behind"),
    ]);
    assert_eq!(cursor.read_cell_text(), Ok("Length to End".to_string()));
    assert_eq!(cursor.next_token(), Some(text("behind")));
}

#[test]
fn read_cell_text_of_white_space_is_empty() {
    let mut cursor = cursor_over(vec![text(" \n\t "), end("td")]);
    assert_eq!(cursor.read_cell_text(), Ok(String::new()));
}

#[test]
fn read_cell_text_stops_at_end_of_stream() {
    let mut cursor = cursor_over(vec![text("UL")]);
    assert_eq!(cursor.read_cell_text(), Ok("UL".to_string()));
    assert_eq!(cursor.next_token(), None);
}

#[test]
fn read_cell_text_reports_malformed_place() {
    let mut cursor = cursor_over(vec![text("UL"), XmlToken::Malformed, end("td")]);
    assert_eq!(cursor.read_cell_text(), Err(XmlError::Malformed));
}

#[test]
fn reader_yields_the_tokens_of_a_document() {
    let document = b"<a x=\"1\" y='two'>t &amp; u<b/><!-- c --></a>";
    let mut reader = XmlReader::new(document);
    assert_eq!(
        reader.next_token(),
        Some(XmlToken::StartElement {
            name: b"a".to_vec(),
            attributes: vec![
                XmlAttribute { name: b"x".to_vec(), value: b"1".to_vec() },
                XmlAttribute { name: b"y".to_vec(), value: b"two".to_vec() },
            ],
        })
    );
    assert_eq!(reader.next_token(), Some(text("t &amp; u")));
    assert_eq!(reader.next_token(), Some(XmlToken::Other));
    assert_eq!(reader.next_token(), Some(XmlToken::Other));
    assert_eq!(reader.next_token(), Some(end("a")));
    assert_eq!(reader.next_token(), None);
    assert_eq!(reader.next_token(), None);
}

#[test]
fn reader_reports_mismatched_end_tag_as_malformed() {
    let mut reader = XmlReader::new(b"<a>x</b><c>");
    assert_eq!(reader.next_token(), Some(start("a")));
    assert_eq!(reader.next_token(), Some(text("x")));
    assert_eq!(reader.next_token(), Some(XmlToken::Malformed));
    assert_eq!(reader.next_token(), None);
}

#[test]
fn reader_reports_bad_attributes_as_malformed() {
    let mut reader = XmlReader::new(b"<a x=1>t</a>");
    assert_eq!(reader.next_token(), Some(XmlToken::Malformed));
    assert_eq!(reader.next_token(), Some(text("t")));
}

#[test]
fn seek_on_a_document() {
    let document = b"<book><table xml:id=\"t1\"><tbody><tr><td>a</td></tr></tbody></table>\
        <table xml:id=\"t2\"><tbody><tr><td> b </td></tr></tbody></table></book>";
    let mut cursor = XmlCursor::new(XmlReader::new(document));
    let table = Landmark { start: "table", boundary: "", attribute: Some(("xml:id", "t2")) };
    assert_eq!(cursor.seek(&table), Ok(()));
    let cell = Landmark { start: "td", boundary: "tr", attribute: None };
    assert_eq!(cursor.seek(&cell), Ok(()));
    assert_eq!(cursor.read_cell_text(), Ok("b".to_string()));
    assert!(matches!(cursor.seek(&cell), Err(XmlError::NotFound { .. })));
    assert_eq!(cursor.next_token(), Some(end("tbody")));
}

#[test]
fn tokens_are_told_apart_by_name_and_attribute() {
    let with_id = Landmark { start: "table", boundary: "x", attribute: Some(("xml:id", "t")) };
    let plain = Landmark { start: "table", boundary: "table", attribute: None };
    assert!(token_is_start(&start_with("table", "xml:id", "t"), &with_id));
    assert!(token_is_start(&start_with("table", "xml:id", "t"), &plain));
    assert!(token_is_start(&start("table"), &plain));
    assert!(!token_is_start(&start("table"), &with_id));
    assert!(!token_is_start(&start_with("table", "xml:id", "u"), &with_id));
    assert!(!token_is_start(&start_with("tables", "xml:id", "t"), &with_id));
    assert!(!token_is_start(&end("table"), &plain));
    assert!(!token_is_start(&text("table"), &plain));
    assert!(token_is_boundary(&end("table"), &plain));
    assert!(!token_is_boundary(&end("table"), &with_id));
    assert!(!token_is_boundary(&start("table"), &plain));
    let attributes = vec![
        XmlAttribute { name: b"a".to_vec(), value: b"1".to_vec() },
        XmlAttribute { name: b"b".to_vec(), value: b"2".to_vec() },
    ];
    assert!(has_attribute(&attributes, b"b", b"2"));
    assert!(!has_attribute(&attributes, b"a", b"2"));
    assert!(!has_attribute(&Vec::new(), b"a", b"1"));
}
