//! The extraction plan: which tables of a document are read, in which
//! order, and how the rows of a table become records.

use vstd::prelude::*;
use crate::cursor::{
    law_seek_moves_forward, lemma_seek_rest, lemma_suffix_of_suffix, seek_outcome, seek_rest,
    Failure, Landmark, SeekOutcome, XmlCursor, XmlError,
};
use crate::row::{
    law_read_cells_moves_forward, lemma_read_cells_rest, read_cells, read_row, record_complete,
    records_view, row_record, DataItem, Record,
};
use crate::source::TokenSource;
use crate::token::Token;

verus! {

/// One table of a plan: the `xml:id` of the table, and the version label of
/// its rows (empty: none is forced, rows are of the current edition unless
/// they say otherwise).
#[derive(Clone, Copy, Debug)]
pub struct TablePlan<'a> {
    pub id: &'a str,
    pub version: &'a str,
}

/// The landmark of the table with this `xml:id`, sought to the end of the
/// document.
pub open spec fn table_landmark<'a>(id: &'a str) -> Landmark<'a> {
    Landmark { start: "table", boundary: "", attribute: Some(("xml:id", id)) }
}

/// The landmark of a table's body.
pub open spec fn body_landmark() -> Landmark<'static> {
    Landmark { start: "tbody", boundary: "td", attribute: None }
}

/// The landmark of the next row of a table's body.
pub open spec fn row_landmark() -> Landmark<'static> {
    Landmark { start: "tr", boundary: "tbody", attribute: None }
}

/// What the reading of rows or tables comes to.
pub struct PlanRead {
    /// The records read, in the order of the document.
    pub records: Seq<Record>,
    /// The tokens behind the one at which the reading stopped.
    pub rest: Seq<Token>,
    /// Why the reading failed, if it did.
    pub failure: Option<Failure>,
}

/// The record of a row as a list: one record, or none.
pub open spec fn row_records(cells: Seq<Seq<char>>, label: Seq<char>) -> Seq<Record> {
    match row_record(cells, label) {
        Some(record) => seq![record],
        None => Seq::empty(),
    }
}

/// Reads the rows of a table's body from `tokens`: as long as a search for
/// the next row succeeds, the record of that row, if it has one. The end of
/// the body ends the reading without failure.
pub open spec fn read_rows(tokens: Seq<Token>, label: Seq<char>) -> PlanRead
    decreases tokens.len(),
    via read_rows_decreases
{
    match seek_outcome(tokens, row_landmark()@) {
        SeekOutcome::Found => {
            let row = read_cells(seek_rest(tokens, row_landmark()@));
            if row.malformed {
                PlanRead {
                    records: Seq::empty(),
                    rest: row.rest,
                    failure: Some(Failure::Malformed),
                }
            } else {
                let tail = read_rows(row.rest, label);
                PlanRead {
                    records: row_records(row.cells, label) + tail.records,
                    rest: tail.rest,
                    failure: tail.failure,
                }
            }
        },
        SeekOutcome::NotFound => PlanRead {
            records: Seq::empty(),
            rest: seek_rest(tokens, row_landmark()@),
            failure: None,
        },
        SeekOutcome::Malformed => PlanRead {
            records: Seq::empty(),
            rest: seek_rest(tokens, row_landmark()@),
            failure: Some(Failure::Malformed),
        },
    }
}

#[via_fn]
proof fn read_rows_decreases(tokens: Seq<Token>, label: Seq<char>) {
    lemma_seek_rest(tokens, row_landmark()@);
    lemma_read_cells_rest(seek_rest(tokens, row_landmark()@));
}

/// How a search that is part of a plan fails, if it does.
pub open spec fn seek_failure(tokens: Seq<Token>, landmark: Landmark) -> Option<Failure> {
    match seek_outcome(tokens, landmark@) {
        SeekOutcome::Found => None,
        SeekOutcome::NotFound => Some(landmark.not_found()),
        SeekOutcome::Malformed => Some(Failure::Malformed),
    }
}

/// Reads one table from `tokens`: finds the table, then its body, then
/// reads the rows of the body. A table or a body that is not found is a
/// failure.
pub open spec fn read_table(tokens: Seq<Token>, table: TablePlan) -> PlanRead {
    let in_table = seek_rest(tokens, table_landmark(table.id)@);
    let in_body = seek_rest(in_table, body_landmark()@);
    if seek_failure(tokens, table_landmark(table.id)) is Some {
        PlanRead {
            records: Seq::empty(),
            rest: in_table,
            failure: seek_failure(tokens, table_landmark(table.id)),
        }
    } else if seek_failure(in_table, body_landmark()) is Some {
        PlanRead {
            records: Seq::empty(),
            rest: in_body,
            failure: seek_failure(in_table, body_landmark()),
        }
    } else {
        read_rows(in_body, table.version@)
    }
}

/// Reads the tables of a plan from `tokens`, one after the other, each from
/// where the one before it stopped. The first failure ends the reading.
pub open spec fn read_tables(tokens: Seq<Token>, plan: Seq<TablePlan>) -> PlanRead
    decreases plan.len(),
{
    if plan.len() == 0 {
        PlanRead { records: Seq::empty(), rest: tokens, failure: None }
    } else {
        let first = read_table(tokens, plan[0]);
        if first.failure is Some {
            first
        } else {
            let tail = read_tables(first.rest, plan.skip(1));
            PlanRead {
                records: first.records + tail.records,
                rest: tail.rest,
                failure: tail.failure,
            }
        }
    }
}

/// Reading rows only moves forward, and every record that it gives is
/// complete.
pub proof fn law_read_rows(tokens: Seq<Token>, label: Seq<char>)
    ensures
        read_rows(tokens, label).rest.is_suffix_of(tokens),
        forall|i: int|
            0 <= i < read_rows(tokens, label).records.len() ==> record_complete(
                #[trigger] read_rows(tokens, label).records[i],
            ),
    decreases tokens.len(),
{
    let inner = seek_rest(tokens, row_landmark()@);
    lemma_seek_rest(tokens, row_landmark()@);
    law_seek_moves_forward(tokens, row_landmark()@);
    if seek_outcome(tokens, row_landmark()@) is Found {
        let row = read_cells(inner);
        lemma_read_cells_rest(inner);
        law_read_cells_moves_forward(inner);
        lemma_suffix_of_suffix(row.rest, inner, tokens);
        if !row.malformed {
            law_read_rows(row.rest, label);
            lemma_suffix_of_suffix(read_rows(row.rest, label).rest, row.rest, tokens);
        }
    }
}

/// Reading a table only moves forward, and every record that it gives is
/// complete.
pub proof fn law_read_table(tokens: Seq<Token>, table: TablePlan)
    ensures
        read_table(tokens, table).rest.is_suffix_of(tokens),
        forall|i: int|
            0 <= i < read_table(tokens, table).records.len() ==> record_complete(
                #[trigger] read_table(tokens, table).records[i],
            ),
{
    let in_table = seek_rest(tokens, table_landmark(table.id)@);
    let in_body = seek_rest(in_table, body_landmark()@);
    law_seek_moves_forward(tokens, table_landmark(table.id)@);
    law_seek_moves_forward(in_table, body_landmark()@);
    lemma_suffix_of_suffix(in_body, in_table, tokens);
    law_read_rows(in_body, table.version@);
    lemma_suffix_of_suffix(read_rows(in_body, table.version@).rest, in_body, tokens);
}

/// Carrying out a plan only moves forward, and every record that it gives
/// is complete: it has a name, a keyword, a value representation and a
/// value multiplicity.
pub proof fn law_read_tables(tokens: Seq<Token>, plan: Seq<TablePlan>)
    ensures
        read_tables(tokens, plan).rest.is_suffix_of(tokens),
        forall|i: int|
            0 <= i < read_tables(tokens, plan).records.len() ==> record_complete(
                #[trigger] read_tables(tokens, plan).records[i],
            ),
    decreases plan.len(),
{
    if plan.len() == 0 {
        assert(tokens =~= tokens.subrange(0, tokens.len() as int));
    } else {
        let first = read_table(tokens, plan[0]);
        law_read_table(tokens, plan[0]);
        if first.failure is None {
            law_read_tables(first.rest, plan.skip(1));
            lemma_suffix_of_suffix(read_tables(first.rest, plan.skip(1)).rest, first.rest, tokens);
        }
    }
}

/// Whether `result` reports exactly `failure`.
pub open spec fn reports(result: Result<(), XmlError>, failure: Option<Failure>) -> bool {
    match result {
        Ok(()) => failure is None,
        Err(error) => failure == Some(error@),
    }
}

/// Reads the rows of the table body in which the cursor stands and appends
/// their records to `items`. The end of the body ends the reading; only a
/// malformed place is a failure. What was read before a failure stays in
/// `items`.
pub fn extract_rows<S: TokenSource>(
    cursor: &mut XmlCursor<S>,
    label: &str,
    items: &mut Vec<DataItem>,
) -> (result: Result<(), XmlError>)
    ensures
        final(cursor).remaining() == read_rows(old(cursor).remaining(), label@).rest,
        records_view(final(items)@) == records_view(old(items)@) + read_rows(
            old(cursor).remaining(),
            label@,
        ).records,
        reports(result, read_rows(old(cursor).remaining(), label@).failure),
{
    let ghost tokens = cursor.remaining();
    let ghost start = records_view(items@);
    let landmark = Landmark { start: "tr", boundary: "tbody", attribute: None };
    assert(start + Seq::<Record>::empty() =~= start);
    loop
        invariant_except_break
            records_view(items@) + read_rows(cursor.remaining(), label@).records == start
                + read_rows(tokens, label@).records,
            read_rows(cursor.remaining(), label@).rest == read_rows(tokens, label@).rest,
            read_rows(cursor.remaining(), label@).failure == read_rows(tokens, label@).failure,
        invariant
            tokens == old(cursor).remaining(),
            start == records_view(old(items)@),
            landmark == row_landmark(),
        ensures
            records_view(items@) == start + read_rows(tokens, label@).records,
            cursor.remaining() == read_rows(tokens, label@).rest,
            read_rows(tokens, label@).failure is None,
        decreases cursor.remaining().len(),
    {
        let ghost before = cursor.remaining();
        let ghost so_far = records_view(items@);
        proof {
            lemma_seek_rest(before, landmark@);
            lemma_read_cells_rest(seek_rest(before, landmark@));
        }
        match cursor.seek(&landmark) {
            Ok(()) => {
                let ghost row = read_cells(cursor.remaining());
                match read_row(cursor, label) {
                    Ok(Some(item)) => {
                        items.push(item);
                        assert(records_view(items@) =~= so_far + seq![item@]);
                        assert((so_far + seq![item@]) + read_rows(
                            cursor.remaining(),
                            label@,
                        ).records =~= so_far + (seq![item@] + read_rows(
                            cursor.remaining(),
                            label@,
                        ).records));
                    },
                    Ok(None) => {
                        assert(Seq::<Record>::empty() + read_rows(
                            cursor.remaining(),
                            label@,
                        ).records =~= read_rows(cursor.remaining(), label@).records);
                    },
                    Err(error) => {
                        assert(so_far + Seq::<Record>::empty() =~= so_far);
                        return Err(error);
                    },
                }
            },
            Err(XmlError::Malformed) => {
                assert(so_far + Seq::<Record>::empty() =~= so_far);
                return Err(XmlError::Malformed);
            },
            Err(_) => {
                assert(so_far + Seq::<Record>::empty() =~= so_far);
                break ;
            },
        }
    }
    Ok(())
}

/// Reads one table: moves the cursor to the table, then to its body, and
/// appends the records of the body's rows to `items`.
pub fn extract_table<S: TokenSource>(
    cursor: &mut XmlCursor<S>,
    table: &TablePlan,
    items: &mut Vec<DataItem>,
) -> (result: Result<(), XmlError>)
    ensures
        final(cursor).remaining() == read_table(old(cursor).remaining(), *table).rest,
        records_view(final(items)@) == records_view(old(items)@) + read_table(
            old(cursor).remaining(),
            *table,
        ).records,
        reports(result, read_table(old(cursor).remaining(), *table).failure),
{
    let table_mark = Landmark { start: "table", boundary: "", attribute: Some(("xml:id", table.id)) };
    let body_mark = Landmark { start: "tbody", boundary: "td", attribute: None };
    assert(records_view(items@) + Seq::<Record>::empty() =~= records_view(items@));
    match cursor.seek(&table_mark) {
        Ok(()) => {},
        Err(error) => {
            return Err(error);
        },
    }
    match cursor.seek(&body_mark) {
        Ok(()) => {},
        Err(error) => {
            return Err(error);
        },
    }
    extract_rows(cursor, table.version, items)
}

/// Carries out a plan: reads its tables one after the other, each from
/// where the one before it stopped, and appends their records to `items`.
/// The first failure ends the run; what was read before it stays in
/// `items`.
pub fn extract_tables<S: TokenSource>(
    cursor: &mut XmlCursor<S>,
    plan: &[TablePlan],
    items: &mut Vec<DataItem>,
) -> (result: Result<(), XmlError>)
    ensures
        final(cursor).remaining() == read_tables(old(cursor).remaining(), plan@).rest,
        records_view(final(items)@) == records_view(old(items)@) + read_tables(
            old(cursor).remaining(),
            plan@,
        ).records,
        reports(result, read_tables(old(cursor).remaining(), plan@).failure),
{
    let ghost tokens = cursor.remaining();
    let ghost start = records_view(items@);
    let mut i: usize = 0;
    assert(plan@.skip(0) =~= plan@);
    assert(start + Seq::<Record>::empty() =~= start);
    while i < plan.len()
        invariant
            records_view(items@) + read_tables(cursor.remaining(), plan@.skip(i as int)).records
                == start + read_tables(tokens, plan@).records,
            read_tables(cursor.remaining(), plan@.skip(i as int)).rest == read_tables(
                tokens,
                plan@,
            ).rest,
            read_tables(cursor.remaining(), plan@.skip(i as int)).failure == read_tables(
                tokens,
                plan@,
            ).failure,
            i <= plan@.len(),
            tokens == old(cursor).remaining(),
            start == records_view(old(items)@),
        decreases plan@.len() - i,
    {
        let ghost before = cursor.remaining();
        let ghost so_far = records_view(items@);
        let ghost first = read_table(before, plan@[i as int]);
        assert(plan@.skip(i as int)[0] == plan@[i as int]);
        assert(plan@.skip(i as int).skip(1) =~= plan@.skip(i + 1));
        match extract_table(cursor, &plan[i], items) {
            Ok(()) => {
                assert((so_far + first.records) + read_tables(
                    cursor.remaining(),
                    plan@.skip(i + 1),
                ).records =~= so_far + (first.records + read_tables(
                    cursor.remaining(),
                    plan@.skip(i + 1),
                ).records));
            },
            Err(error) => {
                return Err(error);
            },
        }
        i += 1;
    }
    assert(records_view(items@) + Seq::<Record>::empty() =~= records_view(items@));
    Ok(())
}

} // verus!
