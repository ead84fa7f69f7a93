//! Errors of the parsers and of the record conversions.
use vstd::prelude::*;

verus! {

/// Errors in reading one field of a record.
#[derive(Debug, PartialEq, Eq, Structural, Clone, Copy)]
pub enum ParseRecordError {
    /// The transaction kind is not one of the known ones.
    UnknownTxType,
    /// The transaction status is not one of the known ones.
    UnknownStatus,
}

impl ParseRecordError {
    /// The message under which the error is shown to a person.
    pub open spec fn spec_message(self) -> Seq<char> {
        match self {
            ParseRecordError::UnknownTxType => "Unknown transaction type"@,
            ParseRecordError::UnknownStatus => "Unknown status"@,
        }
    }

    /// The message under which the error is shown to a person.
    pub fn message(&self) -> (s: String)
        ensures
            s@ == self.spec_message(),
    {
        match self {
            ParseRecordError::UnknownTxType => "Unknown transaction type".to_owned(),
            ParseRecordError::UnknownStatus => "Unknown status".to_owned(),
        }
    }
}

/// Errors of the parsers.
#[derive(Debug, PartialEq, Eq)]
pub enum ParserError {
    /// Reading the input failed (also: a line that is not valid UTF-8).
    IoError(String),
    /// A number could not be read; holds the reason.
    ParseIntError(String),
    /// Text that is not valid UTF-8.
    Utf8Error(String),
    /// A field of a record could not be read.
    ParseRecord(ParseRecordError),
    /// The named input format is not supported.
    InvalidFormat(String),
    /// Conversion to the named output format is not supported.
    ConversionNotSupported,
    /// A field that the format requires is missing.
    RequiredFieldMissing,
    /// A binary record does not start with the magic number.
    InvalidMagicNumber,
    /// The input ends inside a record.
    UnexpectedEof,
    /// The input is empty.
    EmptyFile,
    /// A line is not of the form `key: value`.
    InvalidLineFormat,
    /// A field is not present in a record.
    FieldNotFound(String),
    /// A binary record is too short for its fields.
    InvalidRecordSize,
    /// Two inputs hold different numbers of records.
    DifferentLength,
    /// Two inputs differ at the given record (counted from 1).
    DifferentRecord(usize),
}

/// The mathematical value of a [`ParserError`]: texts as character sequences.
pub enum ParserErrorView {
    IoError(Seq<char>),
    ParseIntError(Seq<char>),
    Utf8Error(Seq<char>),
    ParseRecord(ParseRecordError),
    InvalidFormat(Seq<char>),
    ConversionNotSupported,
    RequiredFieldMissing,
    InvalidMagicNumber,
    UnexpectedEof,
    EmptyFile,
    InvalidLineFormat,
    FieldNotFound(Seq<char>),
    InvalidRecordSize,
    DifferentLength,
    DifferentRecord(usize),
}

impl View for ParserError {
    type V = ParserErrorView;

    open spec fn view(&self) -> ParserErrorView {
        match self {
            ParserError::IoError(s) => ParserErrorView::IoError(s@),
            ParserError::ParseIntError(s) => ParserErrorView::ParseIntError(s@),
            ParserError::Utf8Error(s) => ParserErrorView::Utf8Error(s@),
            ParserError::ParseRecord(e) => ParserErrorView::ParseRecord(*e),
            ParserError::InvalidFormat(s) => ParserErrorView::InvalidFormat(s@),
            ParserError::ConversionNotSupported => ParserErrorView::ConversionNotSupported,
            ParserError::RequiredFieldMissing => ParserErrorView::RequiredFieldMissing,
            ParserError::InvalidMagicNumber => ParserErrorView::InvalidMagicNumber,
            ParserError::UnexpectedEof => ParserErrorView::UnexpectedEof,
            ParserError::EmptyFile => ParserErrorView::EmptyFile,
            ParserError::InvalidLineFormat => ParserErrorView::InvalidLineFormat,
            ParserError::FieldNotFound(s) => ParserErrorView::FieldNotFound(s@),
            ParserError::InvalidRecordSize => ParserErrorView::InvalidRecordSize,
            ParserError::DifferentLength => ParserErrorView::DifferentLength,
            ParserError::DifferentRecord(n) => ParserErrorView::DifferentRecord(*n),
        }
    }
}

impl From<ParseRecordError> for ParserError {
    fn from(from: ParseRecordError) -> (r: Self) {
        ParserError::ParseRecord(from)
    }
}

impl vstd::std_specs::convert::FromSpecImpl<ParseRecordError> for ParserError {
    open spec fn obeys_from_spec() -> bool {
        true
    }

    open spec fn from_spec(v: ParseRecordError) -> Self {
        ParserError::ParseRecord(v)
    }
}

/// The message of an I/O error on text that is not valid UTF-8.
pub open spec fn invalid_utf8_message() -> Seq<char> {
    "stream did not contain valid UTF-8"@
}

/// The I/O error on text that is not valid UTF-8.
pub fn invalid_utf8_error() -> (e: ParserError)
    ensures
        e@ == ParserErrorView::IoError(invalid_utf8_message()),
{
    ParserError::IoError("stream did not contain valid UTF-8".to_owned())
}

} // verus!
