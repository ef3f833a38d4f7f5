//! Extraction of a flat data-element dictionary from the XML documents of the
//! DICOM standard: a forward-only cursor over XML tokens, a row decoder that
//! turns table rows into records, and the assembly of the final text.

pub mod token;
pub mod source;
pub mod reader;
pub mod text;
pub mod cursor;
pub mod config;
pub mod row;
pub mod plan;
pub mod document;
pub mod dictionary;
pub mod environment;
pub mod parse_processor;
