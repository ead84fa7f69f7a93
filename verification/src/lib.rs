//! Readers and writers of bank transaction records in three formats: CSV, a `KEY: value`
//! text format and a binary format, with conversion between them and comparison of two inputs.
pub mod bin_format;
pub mod csv_format;
pub mod errors;
pub mod parser;
pub mod record;
pub mod text;
pub mod txt_format;
pub mod types;

pub use bin_format::ParserBin;
pub use csv_format::ParserCsv;
pub use errors::{ParseRecordError, ParserError};
pub use parser::{Comparison, ParserByType};
pub use record::{EntityID, Record, TxStatus, TxType};
pub use txt_format::ParserTxt;
pub use types::Parser;
