use dict_gen::cursor::{XmlCursor, XmlError};
use dict_gen::row::{apply_version_hint, decode_row, read_row, DataItem};
use dict_gen::source::TokenList;
use dict_gen::text::{decode_cell, trim};
use dict_gen::token::XmlToken;

fn cells(texts: &[&str]) -> Vec<String> {
    texts.iter().map(|t| t.to_string()).collect()
}

fn item(tag: &str, name: &str, keyword: &str, vr: &str, vm: &str, version: &str) -> DataItem {
    DataItem {
        tag: tag.to_string(),
        name: name.to_string(),
        keyword: keyword.to_string(),
        vr: vr.to_string(),
        vm: vm.to_string(),
        version: version.to_string(),
    }
}

fn cell_tokens(content: &str) -> Vec<XmlToken> {
    vec![
        XmlToken::StartElement { name: b"td".to_vec(), attributes: Vec::new() },
        XmlToken::Text { bytes: content.as_bytes().to_vec() },
        XmlToken::EndElement { name: b"td".to_vec() },
    ]
}

fn row_tokens(contents: &[&str]) -> Vec<XmlToken> {
    let mut tokens = Vec::new();
    for content in contents {
        tokens.extend(cell_tokens(content));
    }
    tokens.push(XmlToken::EndElement { name: b"tr".to_vec() });
    tokens
}

#[test]
fn trim_removes_white_space_at_both_ends_only() {
    assert_eq!(trim("  a b \t\n"), "a b");
    assert_eq!(trim("a"), "a");
    assert_eq!(trim(""), "");
    assert_eq!(trim(" \n\t "), "");
    assert_eq!(trim("\u{a0}x\u{3000}"), "x");
    assert_eq!(trim("\u{200b}x\u{200b}"), "\u{200b}x\u{200b}");
}

#[test]
fn decode_cell_decodes_and_trims() {
    assert_eq!(decode_cell(b" (0008,0001)\n"), "(0008,0001)");
    assert_eq!(decode_cell("  \u{b5}m ".as_bytes()), "\u{b5}m");
    assert_eq!(decode_cell(b"a\xffb"), "a\u{fffd}b");
    assert_eq!(decode_cell(b"   "), "");
    assert_eq!(decode_cell(b""), "");
}

#[test]
fn version_hint_ret_prefix_gives_ret() {
    assert_eq!(apply_version_hint("DICOM".to_string(), "RETXYZ".to_string()), "Ret");
    assert_eq!(apply_version_hint("Other".to_string(), "RET".to_string()), "Ret");
    assert_eq!(apply_version_hint("DICOM".to_string(), "RET (2007)".to_string()), "Ret");
}

#[test]
fn version_hint_names_alternate_standards() {
    assert_eq!(apply_version_hint("DICOM".to_string(), "DICOS".to_string()), "DICOS");
    assert_eq!(apply_version_hint("Ret".to_string(), "DICONDE".to_string()), "DICONDE");
}

#[test]
fn version_hint_otherwise_keeps_current() {
    assert_eq!(apply_version_hint("DICOM".to_string(), "".to_string()), "DICOM");
    assert_eq!(apply_version_hint("Ret".to_string(), "See Note".to_string()), "Ret");
    assert_eq!(apply_version_hint("DICOM".to_string(), "ret".to_string()), "DICOM");
    assert_eq!(apply_version_hint("DICOM".to_string(), "RE".to_string()), "DICOM");
    assert_eq!(apply_version_hint("DICOM".to_string(), "DICOS ".to_string()), "DICOM");
    assert_eq!(apply_version_hint("DICOM".to_string(), " RET".to_string()), "DICOM");
}

#[test]
fn decode_row_with_five_cells_has_default_version() {
    let row = cells(&["(0008,0005)", "Specific Character Set", "SpecificCharacterSet", "CS", "1-n"]);
    assert_eq!(
        decode_row(&row, ""),
        Some(item("(0008,0005)", "Specific Character Set", "SpecificCharacterSet", "CS", "1-n", "DICOM"))
    );
    assert_eq!(
        decode_row(&row, "Ret"),
        Some(item("(0008,0005)", "Specific Character Set", "SpecificCharacterSet", "CS", "1-n", "Ret"))
    );
}

#[test]
fn decode_row_sixth_cell_goes_before_the_label() {
    let retired = cells(&["(0008,0001)", "Length to End", "LengthToEnd", "UL", "1", "RETXYZ"]);
    assert_eq!(decode_row(&retired, "").unwrap().version, "Ret");
    assert_eq!(decode_row(&retired, "Anything").unwrap().version, "Ret");
    let dicos = cells(&["(4010,1001)", "Threat ROI Voxel Sequence", "ThreatROIVoxelSequence", "SQ", "1", "DICOS"]);
    assert_eq!(decode_row(&dicos, "").unwrap().version, "DICOS");
    assert_eq!(decode_row(&dicos, "Ret").unwrap().version, "DICOS");
    let diconde = cells(&["(0014,0023)", "CAD File Format", "CADFileFormat", "ST", "1", "DICONDE"]);
    assert_eq!(decode_row(&diconde, "Ret").unwrap().version, "DICONDE");
    let other = cells(&["(0008,0005)", "A", "B", "CS", "1", "note"]);
    assert_eq!(decode_row(&other, "").unwrap().version, "DICOM");
    assert_eq!(decode_row(&other, "Ret").unwrap().version, "Ret");
    let empty_hint = cells(&["(0008,0005)", "A", "B", "CS", "1", ""]);
    assert_eq!(decode_row(&empty_hint, "Ret").unwrap().version, "Ret");
}

#[test]
fn decode_row_ignores_cells_behind_the_sixth() {
    let row = cells(&["t", "n", "k", "vr", "vm", "DICOS", "RET", "extra"]);
    assert_eq!(decode_row(&row, ""), Some(item("t", "n", "k", "vr", "vm", "DICOS")));
}

#[test]
fn decode_row_allows_empty_tag() {
    let row = cells(&["", "n", "k", "vr", "vm"]);
    assert_eq!(decode_row(&row, ""), Some(item("", "n", "k", "vr", "vm", "DICOM")));
}

#[test]
fn decode_row_drops_rows_with_any_required_field_empty() {
    let full = ["t", "n", "k", "vr", "vm"];
    for mask in 1..16u32 {
        let mut texts = full.to_vec();
        for field in 0..4 {
            if mask & (1 << field) != 0 {
                texts[field + 1] = "";
            }
        }
        assert_eq!(decode_row(&cells(&texts), ""), None);
    }
    assert!(decode_row(&cells(&full), "").is_some());
}

#[test]
fn decode_row_drops_short_rows() {
    assert_eq!(decode_row(&cells(&[]), ""), None);
    assert_eq!(decode_row(&cells(&["t"]), ""), None);
    assert_eq!(decode_row(&cells(&["t", "n", "k", "vr"]), ""), None);
}

#[test]
fn read_row_decodes_cells_by_position() {
    let mut tokens = row_tokens(&[" (0008,0001) ", "Length to End", "LengthToEnd", "UL", "1", "RET (2007)"]);
    tokens.push(XmlToken::Text { bytes: b"behind".to_vec() });
    let mut cursor = XmlCursor::new(TokenList::new(tokens));
    assert_eq!(
        read_row(&mut cursor, ""),
        Ok(Some(item("(0008,0001)", "Length to End", "LengthToEnd", "UL", "1", "Ret")))
    );
    assert_eq!(cursor.next_token(), Some(XmlToken::Text { bytes: b"behind".to_vec() }));
}

#[test]
fn read_row_with_white_space_cell_gives_none() {
    let tokens = row_tokens(&["(0008,0001)", "Length to End", " \n ", "UL", "1"]);
    let mut cursor = XmlCursor::new(TokenList::new(tokens));
    assert_eq!(read_row(&mut cursor, ""), Ok(None));
    assert_eq!(cursor.next_token(), None);
}

#[test]
fn read_row_stops_at_the_end_of_the_row() {
    let mut tokens = row_tokens(&["t", "n", "k"]);
    tokens.extend(row_tokens(&["vr", "vm"]));
    let mut cursor = XmlCursor::new(TokenList::new(tokens));
    assert_eq!(read_row(&mut cursor, ""), Ok(None));
    assert_eq!(
        cursor.next_token(),
        Some(XmlToken::StartElement { name: b"td".to_vec(), attributes: Vec::new() })
    );
}

#[test]
fn read_row_reports_malformed_place() {
    let mut tokens = cell_tokens("t");
    tokens.push(XmlToken::Malformed);
    tokens.extend(row_tokens(&["n", "k", "vr", "vm"]));
    let mut cursor = XmlCursor::new(TokenList::new(tokens));
    assert_eq!(read_row(&mut cursor, ""), Err(XmlError::Malformed));
}

#[test]
fn trim_agrees_with_the_standard_trim() {
    let texts = [
        "",
        " ",
        "a",
        " a",
        "a ",
        "\t\r\n a b \u{b}\u{c}",
        "\u{85}\u{1680}\u{2000}\u{200a}\u{2028}\u{2029}\u{202f}\u{205f}x\u{3000}",
        "\u{feff}x",
        "\u{1c}x\u{1f}",
        "  \u{e9}  \u{e9}  ",
    ];
    for text in texts {
        assert_eq!(trim(text), text.trim());
    }
}
