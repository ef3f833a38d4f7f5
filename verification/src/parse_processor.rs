//! The processor: the state of one run, from the files found to the text
//! of the dictionary.

use vstd::prelude::*;
use vstd::string::StringExecFns;
use crate::config::Configuration;
use crate::cursor::{Failure, XmlError};
use crate::dictionary::{
    dictionary_text, fill_header, filled_header, is_stable_sort, render_dictionary, sort_by_tag,
};
use crate::document::{edition, extract_document, find_document, tokens_are_part, tokens_edition};
use crate::environment::{host_name, user_name, utc_now_text};
use crate::plan::{read_tables, reports, TablePlan};
use crate::reader::document_tokens;
use crate::row::{records_view, texts_view, DataItem, Record};
use crate::text::{contains, ends_with, occurs_in};

verus! {

/// The state of one run.
pub struct ParseProcessor {
    pub config: Configuration,
    /// The paths of the documents that may hold tables, in the order in
    /// which they were found.
    pub file_paths: Vec<String>,
    /// The path of the edition document; empty while none was found.
    pub releasenotes_path: String,
    /// The edition of the standard; empty while it was not read.
    pub version: String,
    /// The records read so far.
    pub data_items: Vec<DataItem>,
    /// The header of the dictionary: the template, until it is filled.
    pub dictionary_header: String,
}

/// The model of a run's state.
pub struct ProcessorState {
    pub input_dir_path: Seq<char>,
    pub output_file_path: Seq<char>,
    pub header_file_path: Seq<char>,
    pub file_paths: Seq<Seq<char>>,
    pub releasenotes_path: Seq<char>,
    pub version: Seq<char>,
    pub records: Seq<Record>,
    pub header: Seq<char>,
}

impl View for ParseProcessor {
    type V = ProcessorState;

    open spec fn view(&self) -> ProcessorState {
        ProcessorState {
            input_dir_path: self.config.input_dir_path@,
            output_file_path: self.config.output_file_path@,
            header_file_path: self.config.header_file_path@,
            file_paths: texts_view(self.file_paths@),
            releasenotes_path: self.releasenotes_path@,
            version: self.version@,
            records: records_view(self.data_items@),
            header: self.dictionary_header@,
        }
    }
}

/// Whether a file with this path is taken for an XML document.
pub open spec fn is_xml_path(path: Seq<char>) -> bool {
    ".xml"@.is_suffix_of(path)
}

/// Whether an XML document with this path is taken for the edition
/// document.
pub open spec fn is_edition_path(path: Seq<char>) -> bool {
    occurs_in(path, "releasenotes"@)
}

/// The state after a file with this path was found.
pub open spec fn with_file(state: ProcessorState, path: Seq<char>) -> ProcessorState {
    if !is_xml_path(path) {
        state
    } else if is_edition_path(path) {
        ProcessorState { releasenotes_path: path, ..state }
    } else {
        ProcessorState { file_paths: state.file_paths.push(path), ..state }
    }
}

/// The tables of elements in part 6 of the standard, the data dictionary:
/// data elements, file meta elements, directory structuring elements and
/// dynamic RTP payload elements.
pub open spec fn part_6_tables() -> Seq<TablePlan<'static>> {
    seq![
        TablePlan { id: "table_6-1", version: "" },
        TablePlan { id: "table_7-1", version: "" },
        TablePlan { id: "table_8-1", version: "" },
        TablePlan { id: "table_9-1", version: "" },
    ]
}

/// The tables of elements in part 7 of the standard, the message exchange:
/// command elements, and retired command elements, whose rows are all
/// retired.
pub open spec fn part_7_tables() -> Seq<TablePlan<'static>> {
    seq![
        TablePlan { id: "table_E.1-1", version: "" },
        TablePlan { id: "table_E.2-1", version: "Ret" },
    ]
}

/// What the reading of both parts comes to: the records of part 6, then
/// those of part 7, which is read only where part 6 did not fail.
pub open spec fn read_standard(part_6: Seq<u8>, part_7: Seq<u8>) -> (Seq<Record>, Option<Failure>) {
    let first = read_tables(document_tokens(part_6), part_6_tables());
    let second = read_tables(document_tokens(part_7), part_7_tables());
    if first.failure is Some {
        (first.records, first.failure)
    } else {
        (first.records + second.records, second.failure)
    }
}

/// Whether `after` and `text` are what assembling the dictionary makes of
/// `before` at this date, for this user, on this host: the records in the
/// order of their tags, the header filled, and the text of both.
pub open spec fn assembled(
    before: ProcessorState,
    after: ProcessorState,
    text: Seq<char>,
    date: Seq<char>,
    user: Seq<char>,
    host: Seq<char>,
) -> bool {
    &&& is_stable_sort(after.records, before.records)
    &&& after.header == filled_header(before.header, before.version, date, user, host)
    &&& after == ProcessorState { records: after.records, header: after.header, ..before }
    &&& text == dictionary_text(after.header, after.records)
}

impl ParseProcessor {
    /// A run that has found no file and read no record yet, with
    /// `dictionary_header` as the template of its header.
    pub fn new(config: Configuration, dictionary_header: String) -> (processor: ParseProcessor)
        ensures
            processor.config == config,
            processor@.file_paths == Seq::<Seq<char>>::empty(),
            processor@.releasenotes_path == Seq::<char>::empty(),
            processor@.version == Seq::<char>::empty(),
            processor@.records == Seq::<Record>::empty(),
            processor@.header == dictionary_header@,
    {
        let processor = ParseProcessor {
            config,
            file_paths: Vec::new(),
            releasenotes_path: String::new(),
            version: String::new(),
            data_items: Vec::new(),
            dictionary_header,
        };
        assert(processor@.file_paths =~= Seq::<Seq<char>>::empty());
        assert(processor@.records =~= Seq::<Record>::empty());
        processor
    }

    /// Takes note of a file found under the input directory. A path that
    /// does not end in `.xml` is passed over. Of the others, one with
    /// `releasenotes` in it is the edition document, and all others are
    /// documents that may hold tables.
    pub fn add_file(&mut self, path: &str)
        ensures
            final(self)@ == with_file(old(self)@, path@),
    {
        if ends_with(path, ".xml") {
            if contains(path, "releasenotes") {
                self.releasenotes_path = String::from_str(path);
            } else {
                self.file_paths.push(String::from_str(path));
                assert(texts_view(self.file_paths@) =~= texts_view(old(self).file_paths@).push(
                    path@,
                ));
            }
        }
    }

    /// The index of the first of `documents` that is the given part of the
    /// standard.
    pub fn find_file_idx(&self, documents: &Vec<Vec<u8>>, part: &str) -> (index: Option<usize>)
        ensures
            match index {
                Some(i) => {
                    &&& i < documents@.len()
                    &&& tokens_are_part(document_tokens(documents@[i as int]@), part)
                    &&& forall|j: int|
                        0 <= j < i ==> !tokens_are_part(
                            document_tokens(#[trigger] documents@[j]@),
                            part,
                        )
                },
                None => forall|j: int|
                    0 <= j < documents@.len() ==> !tokens_are_part(
                        document_tokens(#[trigger] documents@[j]@),
                        part,
                    ),
            },
    {
        find_document(documents, part)
    }

    /// Reads the edition of the standard from the edition document. Where
    /// that fails, the state stays as it is.
    pub fn parse_version(&mut self, releasenotes: &[u8]) -> (result: Result<(), XmlError>)
        ensures
            match tokens_edition(document_tokens(releasenotes@)) {
                Ok(version) => result is Ok && final(self)@ == (ProcessorState {
                    version,
                    ..old(self)@
                }),
                Err(failure) => reports(result, Some(failure)) && final(self)@ == old(
                    self,
                )@,
            },
    {
        match edition(releasenotes) {
            Ok(version) => {
                self.version = version;
                Ok(())
            },
            Err(error) => Err(error),
        }
    }

    /// Reads the tables of part 6 of the standard from `document` and adds
    /// their records to those read so far. What was read before a failure
    /// stays.
    pub fn parse_part_6(&mut self, document: &[u8]) -> (result: Result<(), XmlError>)
        ensures
            final(self)@ == (ProcessorState {
                records: old(self)@.records + read_tables(
                    document_tokens(document@),
                    part_6_tables(),
                ).records,
                ..old(self)@
            }),
            reports(
                result,
                read_tables(document_tokens(document@), part_6_tables()).failure,
            ),
    {
        let mut plan: Vec<TablePlan> = Vec::new();
        plan.push(TablePlan { id: "table_6-1", version: "" });
        plan.push(TablePlan { id: "table_7-1", version: "" });
        plan.push(TablePlan { id: "table_8-1", version: "" });
        plan.push(TablePlan { id: "table_9-1", version: "" });
        assert(plan@ =~= part_6_tables());
        extract_document(document, plan.as_slice(), &mut self.data_items)
    }

    /// Reads the tables of part 7 of the standard from `document` and adds
    /// their records to those read so far. What was read before a failure
    /// stays.
    pub fn parse_part_7(&mut self, document: &[u8]) -> (result: Result<(), XmlError>)
        ensures
            final(self)@ == (ProcessorState {
                records: old(self)@.records + read_tables(
                    document_tokens(document@),
                    part_7_tables(),
                ).records,
                ..old(self)@
            }),
            reports(
                result,
                read_tables(document_tokens(document@), part_7_tables()).failure,
            ),
    {
        let mut plan: Vec<TablePlan> = Vec::new();
        plan.push(TablePlan { id: "table_E.1-1", version: "" });
        plan.push(TablePlan { id: "table_E.2-1", version: "Ret" });
        assert(plan@ =~= part_7_tables());
        extract_document(document, plan.as_slice(), &mut self.data_items)
    }

    /// Reads part 6 of the standard and then part 7, and adds their records
    /// to those read so far. The first failure ends the reading.
    pub fn parse_files(&mut self, part_6: &[u8], part_7: &[u8]) -> (result: Result<(), XmlError>)
        ensures
            final(self)@ == (ProcessorState {
                records: old(self)@.records + read_standard(part_6@, part_7@).0,
                ..old(self)@
            }),
            reports(result, read_standard(part_6@, part_7@).1),
    {
        let ghost before = self@.records;
        let ghost first = read_tables(document_tokens(part_6@), part_6_tables()).records;
        let ghost second = read_tables(document_tokens(part_7@), part_7_tables()).records;
        match self.parse_part_6(part_6) {
            Ok(()) => {},
            Err(error) => {
                return Err(error);
            },
        }
        assert((before + first) + second =~= before + (first + second));
        self.parse_part_7(part_7)
    }

    /// Assembles the dictionary: sorts the records by tag, fills the header
    /// with the edition, the date, the user and the host, and gives the text
    /// of the dictionary.
    pub fn assemble_dictionary(&mut self, date: &str, user: &str, host: &str) -> (text: String)
        ensures
            assembled(old(self)@, final(self)@, text@, date@, user@, host@),
    {
        sort_by_tag(&mut self.data_items);
        self.dictionary_header = fill_header(
            self.dictionary_header.as_str(),
            self.version.as_str(),
            date,
            user,
            host,
        );
        render_dictionary(self.dictionary_header.as_str(), &self.data_items)
    }

    /// Assembles the dictionary as of now: with the current time in UTC, as
    /// `YYYY-MM-DD HH:MM:SS`, and with the user and the host as the system
    /// names them.
    pub fn write_dictionary(&mut self) -> (text: String)
        ensures
            exists|date: Seq<char>, user: Seq<char>, host: Seq<char>|
                assembled(old(self)@, final(self)@, text@, date, user, host),
    {
        let date = utc_now_text("%Y-%m-%d %H:%M:%S");
        let user = user_name();
        let host = host_name();
        self.assemble_dictionary(date.as_str(), user.as_str(), host.as_str())
    }
}

} // verus!
