//! The row decoder: one record from the cells of one table row.

use vstd::prelude::*;
use vstd::string::StringExecFns;
use crate::cursor::{
    law_read_cell_moves_forward, law_seek_moves_forward, lemma_read_cell_rest, lemma_seek_rest,
    lemma_suffix_of_suffix, read_cell, seek_outcome, seek_rest, Landmark, SeekOutcome, XmlCursor,
    XmlError,
};
use crate::source::TokenSource;
use crate::text::{cell_text, starts_with, str_eq};
use crate::token::Token;

verus! {

/// One entry of the dictionary. Name, keyword, value representation and
/// value multiplicity of an entry are never empty; the tag may be.
#[derive(Clone, Debug, PartialEq, Eq)]
pub struct DataItem {
    pub tag: String,
    pub name: String,
    pub keyword: String,
    pub vr: String,
    pub vm: String,
    pub version: String,
}

/// The model of a dictionary entry: its six texts.
pub struct Record {
    pub tag: Seq<char>,
    pub name: Seq<char>,
    pub keyword: Seq<char>,
    pub vr: Seq<char>,
    pub vm: Seq<char>,
    pub version: Seq<char>,
}

impl View for DataItem {
    type V = Record;

    open spec fn view(&self) -> Record {
        Record {
            tag: self.tag@,
            name: self.name@,
            keyword: self.keyword@,
            vr: self.vr@,
            vm: self.vm@,
            version: self.version@,
        }
    }
}

/// The models of a list of entries, in order.
pub open spec fn records_view(items: Seq<DataItem>) -> Seq<Record> {
    items.map_values(|item: DataItem| item@)
}

/// Whether a record may stand in the dictionary: name, keyword, value
/// representation and value multiplicity are all there.
pub open spec fn record_complete(record: Record) -> bool {
    record.name.len() > 0 && record.keyword.len() > 0 && record.vr.len() > 0 && record.vm.len()
        > 0
}

/// The version label that rows get when the caller names none.
pub open spec fn default_version(label: Seq<char>) -> Seq<char> {
    if label.len() == 0 {
        "DICOM"@
    } else {
        label
    }
}

/// The version of a row whose sixth cell reads `hint`, where `current` is
/// the version it would have without that cell.
pub open spec fn hinted_version(current: Seq<char>, hint: Seq<char>) -> Seq<char> {
    if "RET"@.is_prefix_of(hint) {
        "Ret"@
    } else if hint == "DICOS"@ || hint == "DICONDE"@ {
        hint
    } else {
        current
    }
}

/// Applies the version hint of a row's sixth cell to the version that the
/// row has so far.
pub fn apply_version_hint(current: String, hint: String) -> (version: String)
    ensures
        version@ == hinted_version(current@, hint@),
{
    if starts_with(hint.as_str(), "RET") {
        String::from_str("Ret")
    } else if str_eq(hint.as_str(), "DICOS") || str_eq(hint.as_str(), "DICONDE") {
        hint
    } else {
        current
    }
}

/// The text of the cell at index `i` of a row; empty where the row has no
/// such cell.
pub open spec fn cell_at(cells: Seq<Seq<char>>, i: int) -> Seq<char> {
    if 0 <= i < cells.len() {
        cells[i]
    } else {
        Seq::empty()
    }
}

/// The version of a row with these cells, under the caller's label.
pub open spec fn row_version(cells: Seq<Seq<char>>, label: Seq<char>) -> Seq<char> {
    if cells.len() > 5 {
        hinted_version(default_version(label), cells[5])
    } else {
        default_version(label)
    }
}

/// The record that a row with these cells stands for, if it stands for one:
/// the cells are, by position, tag, name, keyword, value representation,
/// value multiplicity and version hint; cells behind these count for nothing.
pub open spec fn row_record(cells: Seq<Seq<char>>, label: Seq<char>) -> Option<Record> {
    let record = Record {
        tag: cell_at(cells, 0),
        name: cell_at(cells, 1),
        keyword: cell_at(cells, 2),
        vr: cell_at(cells, 3),
        vm: cell_at(cells, 4),
        version: row_version(cells, label),
    };
    if record_complete(record) {
        Some(record)
    } else {
        None
    }
}

/// The texts of a list of strings, in order.
pub open spec fn texts_view(cells: Seq<String>) -> Seq<Seq<char>> {
    cells.map_values(|cell: String| cell@)
}

/// Whether `item` is the entry that `record` describes, or both are absent.
pub open spec fn is_record(item: Option<DataItem>, record: Option<Record>) -> bool {
    match (item, record) {
        (Some(i), Some(r)) => i@ == r,
        (None, None) => true,
        _ => false,
    }
}

/// The text of the cell at index `i`, empty where there is no such cell.
fn field(cells: &Vec<String>, i: usize) -> (text: String)
    ensures
        text@ == cell_at(texts_view(cells@), i as int),
{
    if i < cells.len() {
        cells[i].clone()
    } else {
        String::new()
    }
}

/// Decodes the cells of one row into a record. `label` is the version of
/// the rows of this table, or empty for the current edition. A row without
/// a name, a keyword, a value representation or a value multiplicity gives
/// no record.
pub fn decode_row(cells: &Vec<String>, label: &str) -> (item: Option<DataItem>)
    ensures
        is_record(item, row_record(texts_view(cells@), label@)),
{
    let tag = field(cells, 0);
    let name = field(cells, 1);
    let keyword = field(cells, 2);
    let vr = field(cells, 3);
    let vm = field(cells, 4);
    let current = if label.is_empty() {
        String::from_str("DICOM")
    } else {
        String::from_str(label)
    };
    let version = if cells.len() > 5 {
        apply_version_hint(current, cells[5].clone())
    } else {
        current
    };
    if name.as_str().is_empty() || keyword.as_str().is_empty() || vr.as_str().is_empty()
        || vm.as_str().is_empty() {
        None
    } else {
        Some(DataItem { tag, name, keyword, vr, vm, version })
    }
}

/// A row that lacks a name, a keyword, a value representation or a value
/// multiplicity gives no record, whatever else it holds; every other row
/// gives the record of its cells.
pub proof fn law_incomplete_row_gives_no_record(cells: Seq<Seq<char>>, label: Seq<char>)
    ensures
        row_record(cells, label) is None <==> (cell_at(cells, 1).len() == 0 || cell_at(
            cells,
            2,
        ).len() == 0 || cell_at(cells, 3).len() == 0 || cell_at(cells, 4).len() == 0),
        row_record(cells, label) matches Some(record) ==> {
            &&& record.tag == cell_at(cells, 0)
            &&& record.name == cell_at(cells, 1)
            &&& record.keyword == cell_at(cells, 2)
            &&& record.vr == cell_at(cells, 3)
            &&& record.vm == cell_at(cells, 4)
            &&& record.version == row_version(cells, label)
        },
{
}

/// A row with fewer than five cells gives no record.
pub proof fn law_short_row_gives_no_record(cells: Seq<Seq<char>>, label: Seq<char>)
    requires
        cells.len() < 5,
    ensures
        row_record(cells, label) is None,
{
}

/// The version of a row goes by its sixth cell before it goes by the
/// caller's label: a sixth cell that begins with `RET` makes the row
/// retired, one that reads `DICOS` or `DICONDE` names the version itself,
/// and with any other sixth cell, or with none, the row has the caller's
/// label, or `DICOM` where the caller gave none.
pub proof fn law_version_hint_precedence(cells: Seq<Seq<char>>, label: Seq<char>)
    ensures
        cells.len() > 5 && "RET"@.is_prefix_of(cells[5]) ==> row_version(cells, label) == "Ret"@,
        cells.len() > 5 && (cells[5] == "DICOS"@ || cells[5] == "DICONDE"@) ==> row_version(
            cells,
            label,
        ) == cells[5],
        cells.len() <= 5 || !("RET"@.is_prefix_of(cells[5]) || cells[5] == "DICOS"@ || cells[5]
            == "DICONDE"@) ==> row_version(cells, label) == default_version(label),
        label.len() > 0 ==> default_version(label) == label,
        label.len() == 0 ==> default_version(label) == "DICOM"@,
{
    reveal_strlit("RET");
    reveal_strlit("DICOS");
    reveal_strlit("DICONDE");
    if cells.len() > 5 && (cells[5] == "DICOS"@ || cells[5] == "DICONDE"@) {
        assert(cells[5][0] == 'D');
        assert(cells[5].subrange(0, 3)[0] == 'D');
        assert("RET"@[0] == 'R');
        assert(!"RET"@.is_prefix_of(cells[5]));
    }
}

/// The landmark of the next cell of a row: a `td` start tag before the
/// row's end tag.
pub open spec fn cell_landmark() -> Landmark<'static> {
    Landmark { start: "td", boundary: "tr", attribute: None }
}

/// What the reading of a row's cells comes to.
pub struct RowRead {
    /// The texts of the row's cells, in order.
    pub cells: Seq<Seq<char>>,
    /// The tokens behind the one at which the reading stopped.
    pub rest: Seq<Token>,
    /// Whether the reading stopped at a malformed place.
    pub malformed: bool,
}

/// Reads the cells of a row from `tokens`: as long as a search for the next
/// cell succeeds, the text of that cell.
pub open spec fn read_cells(tokens: Seq<Token>) -> RowRead
    decreases tokens.len(),
    via read_cells_decreases
{
    match seek_outcome(tokens, cell_landmark()@) {
        SeekOutcome::Found => {
            let cell = read_cell(seek_rest(tokens, cell_landmark()@));
            if cell.malformed {
                RowRead { cells: Seq::empty(), rest: cell.rest, malformed: true }
            } else {
                let tail = read_cells(cell.rest);
                RowRead {
                    cells: seq![cell_text(cell.bytes)] + tail.cells,
                    rest: tail.rest,
                    malformed: tail.malformed,
                }
            }
        },
        SeekOutcome::NotFound => RowRead {
            cells: Seq::empty(),
            rest: seek_rest(tokens, cell_landmark()@),
            malformed: false,
        },
        SeekOutcome::Malformed => RowRead {
            cells: Seq::empty(),
            rest: seek_rest(tokens, cell_landmark()@),
            malformed: true,
        },
    }
}

#[via_fn]
proof fn read_cells_decreases(tokens: Seq<Token>) {
    lemma_seek_rest(tokens, cell_landmark()@);
    lemma_read_cell_rest(seek_rest(tokens, cell_landmark()@));
}

/// Reading a row leaves no more tokens than it was given, and fewer where
/// there were any.
pub proof fn lemma_read_cells_rest(tokens: Seq<Token>)
    ensures
        read_cells(tokens).rest.len() <= tokens.len(),
        tokens.len() > 0 ==> read_cells(tokens).rest.len() < tokens.len(),
    decreases tokens.len(),
{
    lemma_seek_rest(tokens, cell_landmark()@);
    let inner = seek_rest(tokens, cell_landmark()@);
    lemma_read_cell_rest(inner);
    if seek_outcome(tokens, cell_landmark()@) is Found && !read_cell(inner).malformed {
        lemma_read_cells_rest(read_cell(inner).rest);
    }
}

/// Reading a row only moves forward: what it leaves is an end of what it
/// was given.
pub proof fn law_read_cells_moves_forward(tokens: Seq<Token>)
    ensures
        read_cells(tokens).rest.is_suffix_of(tokens),
    decreases tokens.len(),
{
    let inner = seek_rest(tokens, cell_landmark()@);
    lemma_seek_rest(tokens, cell_landmark()@);
    law_seek_moves_forward(tokens, cell_landmark()@);
    if seek_outcome(tokens, cell_landmark()@) is Found {
        let cell = read_cell(inner);
        lemma_read_cell_rest(inner);
        law_read_cell_moves_forward(inner);
        lemma_suffix_of_suffix(cell.rest, inner, tokens);
        if !cell.malformed {
            law_read_cells_moves_forward(cell.rest);
            lemma_suffix_of_suffix(read_cells(cell.rest).rest, cell.rest, tokens);
        }
    }
}

/// Reads one row, in which the cursor stands, and decodes it. `label` is
/// the version of the rows of this table, or empty for the current
/// edition. Gives no record for a row that lacks a name, a keyword, a value
/// representation or a value multiplicity, and fails at a malformed place.
/// The cursor then stands behind the row's end tag.
pub fn read_row<S: TokenSource>(cursor: &mut XmlCursor<S>, label: &str) -> (item: Result<
    Option<DataItem>,
    XmlError,
>)
    ensures
        final(cursor).remaining() == read_cells(old(cursor).remaining()).rest,
        match item {
            Ok(found) => {
                &&& !read_cells(old(cursor).remaining()).malformed
                &&& is_record(found, row_record(read_cells(old(cursor).remaining()).cells, label@))
            },
            Err(error) => read_cells(old(cursor).remaining()).malformed && error is Malformed,
        },
{
    let ghost tokens = cursor.remaining();
    let landmark = Landmark { start: "td", boundary: "tr", attribute: None };
    let mut cells: Vec<String> = Vec::new();
    loop
        invariant_except_break
            texts_view(cells@) + read_cells(cursor.remaining()).cells == read_cells(tokens).cells,
            read_cells(cursor.remaining()).rest == read_cells(tokens).rest,
            read_cells(cursor.remaining()).malformed == read_cells(tokens).malformed,
        invariant
            tokens == old(cursor).remaining(),
            landmark == cell_landmark(),
        ensures
            texts_view(cells@) == read_cells(tokens).cells,
            cursor.remaining() == read_cells(tokens).rest,
            !read_cells(tokens).malformed,
        decreases cursor.remaining().len(),
    {
        let ghost before = cursor.remaining();
        let ghost so_far = texts_view(cells@);
        proof {
            lemma_seek_rest(before, landmark@);
            lemma_read_cell_rest(seek_rest(before, landmark@));
        }
        match cursor.seek(&landmark) {
            Ok(()) => {
                match cursor.read_cell_text() {
                    Ok(text) => {
                        cells.push(text);
                        assert(texts_view(cells@) =~= so_far + seq![text@]);
                        assert((so_far + seq![text@]) + read_cells(cursor.remaining()).cells
                            =~= so_far + (seq![text@] + read_cells(cursor.remaining()).cells));
                    },
                    Err(error) => {
                        return Err(error);
                    },
                }
            },
            Err(XmlError::Malformed) => {
                return Err(XmlError::Malformed);
            },
            Err(_) => {
                assert(so_far + Seq::<Seq<char>>::empty() =~= so_far);
                break ;
            },
        }
    }
    Ok(decode_row(&cells, label))
}

} // verus!
