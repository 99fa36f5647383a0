//! Reading tabular data out of a spreadsheet document: a ZIP container of XML parts.
//!
//! A [`WorkBook`] resolves the container's part relationships, its sheet directory and its
//! shared-string table, and decodes worksheet parts into typed cells. The functions of
//! this crate are verified with Verus against the contracts they carry. The ZIP reader
//! and the XML tokenizer are outside crates; they are called through the few functions of
//! [`archive`] and [`xml_events`] whose contracts are taken on trust, and which name what
//! the outside crates return without defining it.

pub mod archive;
pub mod bom;
pub mod cell;
pub mod directory;
pub mod errors;
pub mod relations;
pub mod sheet;
pub mod strings;
pub mod table;
pub mod text;
pub mod workbook;
pub mod xml_events;

pub use cell::{Cell, Value, WorkSheet};
pub use errors::Error;
pub use workbook::WorkBook;
