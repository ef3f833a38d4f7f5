use dict_gen::cursor::{Landmark, XmlCursor, XmlError};
use dict_gen::document::{edition, extract_document, find_document, is_part};
use dict_gen::plan::{extract_rows, extract_table, extract_tables, TablePlan};
use dict_gen::reader::XmlReader;
use dict_gen::row::DataItem;

fn item(tag: &str, name: &str, keyword: &str, vr: &str, vm: &str, version: &str) -> DataItem {
    DataItem {
        tag: tag.to_string(),
        name: name.to_string(),
        keyword: keyword.to_string(),
        vr: vr.to_string(),
        vm: vm.to_string(),
        version: version.to_string(),
    }
}

fn row(cells: &[&str]) -> String {
    let mut text = String::from("<tr valign=\"top\">\n");
    for cell in cells {
        text.push_str("<td align=\"left\"><para>");
        text.push_str(cell);
        text.push_str("</para></td>\n");
    }
    text.push_str("</tr>\n");
    text
}

fn table(id: &str, rows: &[String]) -> String {
    let mut text = format!("<table frame=\"box\" xml:id=\"{}\">\n<caption>c</caption>\n", id);
    text.push_str("<thead><tr><th>Tag</th><th>Name</th></tr></thead>\n<tbody>\n");
    for r in rows {
        text.push_str(r);
    }
    text.push_str("</tbody>\n</table>\n");
    text
}

fn book(id: &str, body: &str) -> String {
    format!(
        "<?xml version=\"1.0\"?>\n<book xmlns=\"http://docbook.org/ns/docbook\" xml:id=\"{}\">\n\
         <title>{} Title</title>\n<chapter>\n{}</chapter>\n</book>\n",
        id, id, body
    )
}

#[test]
fn two_row_table_with_one_incomplete_row_gives_one_record() {
    let rows = vec![
        row(&["(0010,0010)", "Patient's Name", "PatientName", "PN", "1"]),
        row(&["(0010,0020)", "Patient ID", "PatientID", "LO"]),
    ];
    let document = book("PS3.6", &table("table_6-1", &rows));
    let plan = [TablePlan { id: "table_6-1", version: "" }];
    let mut items = Vec::new();
    assert_eq!(extract_document(document.as_bytes(), &plan, &mut items), Ok(()));
    assert_eq!(items, vec![item("(0010,0010)", "Patient's Name", "PatientName", "PN", "1", "DICOM")]);
}

#[test]
fn tables_are_read_in_plan_order_and_labels_applied() {
    let first = table(
        "table_E.1-1",
        &[
            row(&["(0000,0000)", "Command Group Length", "CommandGroupLength", "UL", "1"]),
            row(&["", "", "", "", ""]),
            row(&["(0000,0002)", "Affected SOP Class UID", "AffectedSOPClassUID", "UI", "1"]),
        ],
    );
    let second = table(
        "table_E.2-1",
        &[
            row(&["(0000,0001)", "Command Length to End", "CommandLengthToEnd", "UL", "1"]),
            row(&["(0000,0010)", "Command Recognition Code", "CommandRecognitionCode", "SH", "1", "DICOS"]),
        ],
    );
    let document = book("PS3.7", &format!("{}{}", first, second));
    let plan = [
        TablePlan { id: "table_E.1-1", version: "" },
        TablePlan { id: "table_E.2-1", version: "Ret" },
    ];
    let mut items = vec![item("x", "n", "k", "vr", "vm", "DICOM")];
    assert_eq!(extract_document(document.as_bytes(), &plan, &mut items), Ok(()));
    assert_eq!(
        items,
        vec![
            item("x", "n", "k", "vr", "vm", "DICOM"),
            item("(0000,0000)", "Command Group Length", "CommandGroupLength", "UL", "1", "DICOM"),
            item("(0000,0002)", "Affected SOP Class UID", "AffectedSOPClassUID", "UI", "1", "DICOM"),
            item("(0000,0001)", "Command Length to End", "CommandLengthToEnd", "UL", "1", "Ret"),
            item("(0000,0010)", "Command Recognition Code", "CommandRecognitionCode", "SH", "1", "DICOS"),
        ]
    );
}

#[test]
fn header_rows_before_the_body_are_not_read() {
    let document = book("PS3.6", &table("t", &[row(&["a", "b", "c", "d", "e"])]));
    let mut items = Vec::new();
    let plan = [TablePlan { id: "t", version: "" }];
    assert_eq!(extract_document(document.as_bytes(), &plan, &mut items), Ok(()));
    assert_eq!(items, vec![item("a", "b", "c", "d", "e", "DICOM")]);
}

#[test]
fn missing_table_is_fatal() {
    let document = book("PS3.6", &table("table_6-1", &[row(&["a", "b", "c", "d", "e"])]));
    let plan = [
        TablePlan { id: "table_6-1", version: "" },
        TablePlan { id: "table_7-1", version: "" },
    ];
    let mut items = Vec::new();
    assert_eq!(
        extract_document(document.as_bytes(), &plan, &mut items),
        Err(XmlError::NotFound {
            start: "table".to_string(),
            attribute: Some(("xml:id".to_string(), "table_7-1".to_string())),
        })
    );
    assert_eq!(items, vec![item("a", "b", "c", "d", "e", "DICOM")]);
}

#[test]
fn tables_out_of_plan_order_are_not_found() {
    let body = format!(
        "{}{}",
        table("second", &[row(&["a", "b", "c", "d", "e"])]),
        table("first", &[row(&["f", "g", "h", "i", "j"])])
    );
    let document = book("PS3.6", &body);
    let plan = [TablePlan { id: "first", version: "" }, TablePlan { id: "second", version: "" }];
    let mut items = Vec::new();
    assert!(matches!(
        extract_document(document.as_bytes(), &plan, &mut items),
        Err(XmlError::NotFound { .. })
    ));
    assert_eq!(items, vec![item("f", "g", "h", "i", "j", "DICOM")]);
}

#[test]
fn table_without_body_is_fatal() {
    let document = "<book><table xml:id=\"t\"><tr><td>a</td></tr></table></book>";
    let mut cursor = XmlCursor::new(XmlReader::new(document.as_bytes()));
    let mut items = Vec::new();
    assert_eq!(
        extract_table(&mut cursor, &TablePlan { id: "t", version: "" }, &mut items),
        Err(XmlError::NotFound { start: "tbody".to_string(), attribute: None })
    );
    assert!(items.is_empty());
}

#[test]
fn malformed_document_is_fatal() {
    let document = format!(
        "<book><table xml:id=\"t\"><tbody>{}<tr><td>a</td></wrong></tbody></table></book>",
        row(&["a", "b", "c", "d", "e"])
    );
    let mut items = Vec::new();
    assert_eq!(
        extract_document(document.as_bytes(), &[TablePlan { id: "t", version: "" }], &mut items),
        Err(XmlError::Malformed)
    );
    assert_eq!(items, vec![item("a", "b", "c", "d", "e", "DICOM")]);
}

#[test]
fn empty_plan_reads_nothing() {
    let mut items = Vec::new();
    assert_eq!(extract_document(b"<a></b>", &[], &mut items), Ok(()));
    assert!(items.is_empty());
}

#[test]
fn extract_rows_ends_at_the_body_end() {
    let document = format!(
        "<tbody>{}{}</tbody><tbody><tr><td>x</td></tr></tbody>",
        row(&["a", "b", "c", "d", "e"]),
        row(&["f", "g", "h", "i", "j", "RET"])
    );
    let mut cursor = XmlCursor::new(XmlReader::new(document.as_bytes()));
    let body = Landmark { start: "tbody", boundary: "td", attribute: None };
    assert_eq!(cursor.seek(&body), Ok(()));
    let mut items = Vec::new();
    assert_eq!(extract_rows(&mut cursor, "", &mut items), Ok(()));
    assert_eq!(
        items,
        vec![item("a", "b", "c", "d", "e", "DICOM"), item("f", "g", "h", "i", "j", "Ret")]
    );
    let mut more = Vec::new();
    assert_eq!(extract_rows(&mut cursor, "", &mut more), Ok(()));
    assert!(more.is_empty());
}

#[test]
fn extract_tables_goes_on_where_the_last_table_stopped() {
    let body = format!(
        "{}{}",
        table("a", &[row(&["1", "n", "k", "vr", "vm"])]),
        table("b", &[row(&["2", "n", "k", "vr", "vm"])])
    );
    let mut cursor = XmlCursor::new(XmlReader::new(body.as_bytes()));
    let mut items = Vec::new();
    let plan = [TablePlan { id: "a", version: "" }, TablePlan { id: "b", version: "" }];
    assert_eq!(extract_tables(&mut cursor, &plan, &mut items), Ok(()));
    assert_eq!(items.len(), 2);
    assert_eq!(items[0].tag, "1");
    assert_eq!(items[1].tag, "2");
}

#[test]
fn part_is_told_by_the_book_id() {
    let part_6 = book("PS3.6", "");
    let part_7 = book("PS3.7", "");
    assert!(is_part(part_6.as_bytes(), "PS3.6"));
    assert!(!is_part(part_6.as_bytes(), "PS3.7"));
    assert!(is_part(part_7.as_bytes(), "PS3.7"));
    assert!(!is_part(b"<article xml:id=\"PS3.6\"><title>t</title></article>", "PS3.6"));
    assert!(!is_part(b"<a><title>t</title><book xml:id=\"PS3.6\"/></a>", "PS3.6"));
    assert!(!is_part(b"<x><title>t</title><book xml:id=\"PS3.6\"></book></x>", "PS3.6"));
    assert!(!is_part(b"", "PS3.6"));
}

#[test]
fn find_document_gives_the_first_match() {
    let documents = vec![
        book("PS3.5", "").into_bytes(),
        book("PS3.7", "").into_bytes(),
        book("PS3.6", "").into_bytes(),
        book("PS3.7", "").into_bytes(),
    ];
    assert_eq!(find_document(&documents, "PS3.6"), Some(2));
    assert_eq!(find_document(&documents, "PS3.7"), Some(1));
    assert_eq!(find_document(&documents, "PS3.10"), None);
    assert_eq!(find_document(&Vec::new(), "PS3.6"), None);
}

#[test]
fn edition_is_the_last_word_of_the_first_title() {
    assert_eq!(
        edition(b"<book><title>DICOM PS3.0 2024e</title><title>x y</title></book>"),
        Ok("2024e".to_string())
    );
    assert_eq!(edition(b"<title>a b </title>"), Ok("".to_string()));
}

#[test]
fn edition_failures() {
    assert_eq!(edition(b"<title>2024e</title>"), Err(XmlError::NoVersion));
    assert_eq!(edition(b"<title><b>a b</b></title>"), Err(XmlError::NoVersion));
    assert_eq!(edition(b"<title>"), Err(XmlError::NoVersion));
    assert_eq!(
        edition(b"<book><para>x</para></book>"),
        Err(XmlError::NotFound { start: "title".to_string(), attribute: None })
    );
    assert_eq!(edition(b"<book></title>"), Err(XmlError::Malformed));
}
