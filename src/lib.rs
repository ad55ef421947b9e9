//! A small delimited-text tokenizer: it cuts a document into lines and fields,
//! and can bind the first row as column names.
pub mod fields;
pub mod table;
pub mod record;
pub mod parser;
pub mod laws;

pub use parser::{CSVParser, FileAccessError, RowWidthError};
pub use record::NamedRecord;
