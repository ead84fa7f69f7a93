//! The CSV format: a header line naming the columns, then one line per record with the fields
//! separated by commas. Columns are found by their names, in any order and case. A line is
//! split into at most as many fields as the header has columns, so that the last column (the
//! description, as written) keeps any commas it holds.
use vstd::prelude::*;
use vstd::utf8::{decode_utf8, encode_utf8, valid_utf8};

use crate::errors::{invalid_utf8_error, invalid_utf8_message, ParseRecordError, ParserError, ParserErrorView};
use crate::record::{Record, RecordView, TxStatus, TxType};
use crate::text::{
    chars_of, decimal, decimal_signed, decode_line, find_line_end, int_error_message,
    lemma_line_end, line_end, lowered, push_decimal, push_decimal_signed, push_range,
    push_str_chars, push_utf8, range_eq, range_views, spec_parse_i64, spec_parse_u64, split_on,
    split_n, split_ranges, split_ranges_n, string_from_chars, to_lowercase, trim, trim_bounds, parse_i64_range,
    parse_u64_range,
};
use crate::types::{encode_all, parse_all, Parser};
use crate::text::{
    ascii_lowercase, is_ws, lemma_decimal_no, lemma_decimal_signed_no, lemma_parse_i64_decimal,
    lemma_parse_u64_decimal, lemma_read_encoded_line, lemma_read_last_line, lemma_trim_push_ws, lines_text, lemma_encode_utf8_concat,
    lemma_trim_drop_end, lemma_trim_noop, join_with, lemma_join_split, lemma_join_split_n, lemma_join_no,
    lemma_join_ends,
};
use crate::record::{lemma_tx_status_name_roundtrip, lemma_tx_type_name_roundtrip};
use vstd::utf8::is_ascii_chars;

verus! {

/// The header line that the writer puts before the records.
pub const HEADER_FIELDS: &'static str =
    "TX_ID,TX_TYPE,FROM_USER_ID,TO_USER_ID,AMOUNT,TIMESTAMP,STATUS,DESCRIPTION\n";

// ---------------------------------------------------------------------------
// Writing
// ---------------------------------------------------------------------------

/// The line of a record: its fields in column order, separated by commas, then a line break.
/// Numbers are written in decimal, kinds and statuses by their upper-case names, and the
/// description as it is.
pub open spec fn spec_csv_line(r: RecordView) -> Seq<char> {
    decimal(r.id as nat) + seq![','] + r.tx_type.spec_name() + seq![','] + decimal(
        r.from_user_id as nat,
    ) + seq![','] + decimal(r.to_user_id as nat) + seq![','] + decimal_signed(r.amount as int)
        + seq![','] + decimal(r.timestamp as nat) + seq![','] + r.status.spec_name() + seq![',']
        + r.description + seq!['\n']
}

/// A record shown as a CSV line.
pub struct CsvDisplay<'a>(pub &'a Record);

impl<'a> CsvDisplay<'a> {
    /// The CSV line of the record, ending with a line break.
    pub fn to_string(&self) -> (s: String)
        ensures
            s@ == spec_csv_line(self.0@),
    {
        let item = self.0;
        let mut v: Vec<char> = Vec::new();
        push_decimal(&mut v, item.id);
        v.push(',');
        push_str_chars(&mut v, item.tx_type.as_str());
        v.push(',');
        push_decimal(&mut v, item.from_user_id);
        v.push(',');
        push_decimal(&mut v, item.to_user_id);
        v.push(',');
        push_decimal_signed(&mut v, item.amount);
        v.push(',');
        push_decimal(&mut v, item.timestamp);
        v.push(',');
        push_str_chars(&mut v, item.status.as_str());
        v.push(',');
        push_str_chars(&mut v, item.description.as_str());
        v.push('\n');
        proof {
            assert(v@ =~= spec_csv_line(item@));
        }
        string_from_chars(&v)
    }
}

impl Record {
    /// The CSV line of the record, ending with a line break.
    pub fn as_csv_record(&self) -> (s: String)
        ensures
            s@ == spec_csv_line(self@),
    {
        CsvDisplay(self).to_string()
    }
}

// ---------------------------------------------------------------------------
// Columns
// ---------------------------------------------------------------------------

/// The column of each field, as found in the header line.
#[derive(Debug, Clone, Copy)]
pub struct FieldMapping {
    pub id_idx: Option<usize>,
    pub tx_type_idx: Option<usize>,
    pub from_user_id_idx: Option<usize>,
    pub to_user_id_idx: Option<usize>,
    pub amount_idx: Option<usize>,
    pub timestamp_idx: Option<usize>,
    pub status_idx: Option<usize>,
    pub description_idx: Option<usize>,
    /// How many columns the header has: a line is split into at most this many fields, the
    /// last holding the rest of the line.
    pub columns: usize,
}

/// The names of the columns of a header line: its trimmed comma-separated parts, each trimmed
/// and lower-cased.
pub open spec fn header_names(line: Seq<char>) -> Seq<Seq<char>> {
    split_on(trim(line), ',').map_values(|f: Seq<char>| lowered(trim(f)))
}

/// The last position of `key` in `names`.
pub open spec fn last_index(names: Seq<Seq<char>>, key: Seq<char>) -> Option<usize>
    decreases names.len(),
{
    if names.len() == 0 {
        None
    } else if names.last() == key {
        Some((names.len() - 1) as usize)
    } else {
        last_index(names.drop_last(), key)
    }
}

/// The mapping that the column names `names` give: each field at the last column of its name.
pub open spec fn mapping_of(names: Seq<Seq<char>>) -> FieldMapping {
    FieldMapping {
        id_idx: last_index(names, "tx_id"@),
        tx_type_idx: last_index(names, "tx_type"@),
        from_user_id_idx: last_index(names, "from_user_id"@),
        to_user_id_idx: last_index(names, "to_user_id"@),
        amount_idx: last_index(names, "amount"@),
        timestamp_idx: last_index(names, "timestamp"@),
        status_idx: last_index(names, "status"@),
        description_idx: last_index(names, "description"@),
        columns: names.len() as usize,
    }
}

/// The mapping of a header line, refused when it has no `TX_ID` column.
pub open spec fn spec_from_header(line: Seq<char>) -> Result<FieldMapping, ParserErrorView> {
    let m = mapping_of(header_names(line));
    if m.id_idx is None {
        Err(ParserErrorView::RequiredFieldMissing)
    } else {
        Ok(m)
    }
}

/// The text of the field at column `idx`, or why there is none.
pub open spec fn spec_field(fields: Seq<Seq<char>>, idx: Option<usize>) -> Result<
    Seq<char>,
    ParserErrorView,
> {
    match idx {
        None => Err(ParserErrorView::FieldNotFound("index not found"@)),
        Some(i) => if i < fields.len() {
            Ok(fields[i as int])
        } else {
            Err(ParserErrorView::FieldNotFound("field at index "@ + decimal(i as nat)))
        },
    }
}

pub open spec fn spec_u64_field(fields: Seq<Seq<char>>, idx: Option<usize>) -> Result<
    u64,
    ParserErrorView,
> {
    match spec_field(fields, idx) {
        Err(e) => Err(e),
        Ok(f) => match spec_parse_u64(f) {
            Ok(v) => Ok(v),
            Err(k) => Err(ParserErrorView::ParseIntError(int_error_message(k))),
        },
    }
}

pub open spec fn spec_i64_field(fields: Seq<Seq<char>>, idx: Option<usize>) -> Result<
    i64,
    ParserErrorView,
> {
    match spec_field(fields, idx) {
        Err(e) => Err(e),
        Ok(f) => match spec_parse_i64(f) {
            Ok(v) => Ok(v),
            Err(k) => Err(ParserErrorView::ParseIntError(int_error_message(k))),
        },
    }
}

pub open spec fn spec_tx_type_field(fields: Seq<Seq<char>>, idx: Option<usize>) -> Result<
    TxType,
    ParserErrorView,
> {
    match spec_field(fields, idx) {
        Err(e) => Err(e),
        Ok(f) => match TxType::spec_from_lower(lowered(f)) {
            Some(t) => Ok(t),
            None => Err(ParserErrorView::ParseRecord(ParseRecordError::UnknownTxType)),
        },
    }
}

pub open spec fn spec_status_field(fields: Seq<Seq<char>>, idx: Option<usize>) -> Result<
    TxStatus,
    ParserErrorView,
> {
    match spec_field(fields, idx) {
        Err(e) => Err(e),
        Ok(f) => match TxStatus::spec_from_lower(lowered(f)) {
            Some(t) => Ok(t),
            None => Err(ParserErrorView::ParseRecord(ParseRecordError::UnknownStatus)),
        },
    }
}

/// The record in the fields of one line, read in column order; the first field that is
/// missing or cannot be read gives the error.
pub open spec fn spec_parse_record(m: FieldMapping, fields: Seq<Seq<char>>) -> Result<
    RecordView,
    ParserErrorView,
> {
    match spec_u64_field(fields, m.id_idx) {
        Err(e) => Err(e),
        Ok(id) => match spec_tx_type_field(fields, m.tx_type_idx) {
            Err(e) => Err(e),
            Ok(tx_type) => match spec_u64_field(fields, m.from_user_id_idx) {
                Err(e) => Err(e),
                Ok(from_user_id) => match spec_u64_field(fields, m.to_user_id_idx) {
                    Err(e) => Err(e),
                    Ok(to_user_id) => match spec_i64_field(fields, m.amount_idx) {
                        Err(e) => Err(e),
                        Ok(amount) => match spec_u64_field(fields, m.timestamp_idx) {
                            Err(e) => Err(e),
                            Ok(timestamp) => match spec_status_field(fields, m.status_idx) {
                                Err(e) => Err(e),
                                Ok(status) => match spec_field(fields, m.description_idx) {
                                    Err(e) => Err(e),
                                    Ok(description) => Ok(
                                        RecordView {
                                            id,
                                            tx_type,
                                            from_user_id,
                                            to_user_id,
                                            amount,
                                            timestamp,
                                            status,
                                            description,
                                        },
                                    ),
                                },
                            },
                        },
                    },
                },
            },
        },
    }
}

impl FieldMapping {
    /// A mapping with no column for any field.
    fn default() -> (m: Self)
        ensures
            m.id_idx is None && m.tx_type_idx is None && m.from_user_id_idx is None
                && m.to_user_id_idx is None && m.amount_idx is None && m.timestamp_idx is None
                && m.status_idx is None && m.description_idx is None && m.columns == 0,
    {
        FieldMapping {
            id_idx: None,
            tx_type_idx: None,
            from_user_id_idx: None,
            to_user_id_idx: None,
            amount_idx: None,
            timestamp_idx: None,
            status_idx: None,
            description_idx: None,
            columns: 0,
        }
    }

    /// The mapping that a header line gives; refused when there is no `TX_ID` column.
    fn from_header(line: &Vec<char>) -> (r: Result<Self, ParserError>)
        ensures
            match r {
                Ok(m) => spec_from_header(line@) == Ok::<FieldMapping, ParserErrorView>(m),
                Err(e) => spec_from_header(line@) == Err::<FieldMapping, ParserErrorView>(e@),
            },
    {
        let (a, b) = trim_bounds(line, 0, line.len());
        proof {
            assert(line@.subrange(0, line@.len() as int) =~= line@);
        }
        let ranges = split_ranges(line, a, b, ',');
        assert(forall|k: int|
            0 <= k < ranges@.len() ==> #[trigger] ranges@[k].0 <= ranges@[k].1 <= line@.len());
        let ghost names = header_names(line@);
        let k_id = chars_of("tx_id");
        let k_type = chars_of("tx_type");
        let k_from = chars_of("from_user_id");
        let k_to = chars_of("to_user_id");
        let k_amount = chars_of("amount");
        let k_ts = chars_of("timestamp");
        let k_status = chars_of("status");
        let k_desc = chars_of("description");
        let mut mapping = FieldMapping::default();
        let mut idx: usize = 0;
        while idx < ranges.len()
            invariant
                0 <= idx <= ranges@.len(),
                names.len() == ranges@.len(),
                forall|k: int|
                    0 <= k < ranges@.len() ==> #[trigger] ranges@[k].0 <= ranges@[k].1 <= line@.len(),
                forall|k: int|
                    0 <= k < ranges@.len() ==> #[trigger] names[k] == lowered(
                        trim(line@.subrange(ranges@[k].0 as int, ranges@[k].1 as int)),
                    ),
                k_id@ == "tx_id"@,
                k_type@ == "tx_type"@,
                k_from@ == "from_user_id"@,
                k_to@ == "to_user_id"@,
                k_amount@ == "amount"@,
                k_ts@ == "timestamp"@,
                k_status@ == "status"@,
                k_desc@ == "description"@,
                mapping == mapping_of(names.take(idx as int)),
            decreases ranges@.len() - idx,
        {
            let (lo, hi) = ranges[idx];
            let (x, y) = trim_bounds(line, lo, hi);
            let mut field: Vec<char> = Vec::new();
            push_range(&mut field, line, x, y);
            let lower = chars_of(to_lowercase(string_from_chars(&field).as_str()).as_str());
            let n = lower.len();
            proof {
                assert(lower@ == names[idx as int]);
                assert(lower@.subrange(0, n as int) =~= lower@);
                assert(names.take(idx + 1).drop_last() =~= names.take(idx as int));
                assert(names.take(idx + 1).last() == names[idx as int]);
            }
            if range_eq(&lower, 0, n, &k_id) {
                mapping.id_idx = Some(idx);
            }
            if range_eq(&lower, 0, n, &k_type) {
                mapping.tx_type_idx = Some(idx);
            }
            if range_eq(&lower, 0, n, &k_from) {
                mapping.from_user_id_idx = Some(idx);
            }
            if range_eq(&lower, 0, n, &k_to) {
                mapping.to_user_id_idx = Some(idx);
            }
            if range_eq(&lower, 0, n, &k_amount) {
                mapping.amount_idx = Some(idx);
            }
            if range_eq(&lower, 0, n, &k_ts) {
                mapping.timestamp_idx = Some(idx);
            }
            if range_eq(&lower, 0, n, &k_status) {
                mapping.status_idx = Some(idx);
            }
            if range_eq(&lower, 0, n, &k_desc) {
                mapping.description_idx = Some(idx);
            }
            mapping.columns = idx + 1;
            idx = idx + 1;
        }
        proof {
            assert(names.take(ranges@.len() as int) =~= names);
        }
        if mapping.id_idx.is_none() {
            return Err(ParserError::RequiredFieldMissing);
        }
        Ok(mapping)
    }

    /// The bounds in `line` of the field at column `idx`, or why there is none.
    fn field_bounds(&self, line: &Vec<char>, fields: &Vec<(usize, usize)>, idx: Option<usize>) -> (r:
        Result<(usize, usize), ParserError>)
        requires
            forall|k: int|
                0 <= k < fields@.len() ==> #[trigger] fields@[k].0 <= fields@[k].1 <= line@.len(),
        ensures
            match r {
                Ok(b) => b.0 <= b.1 <= line@.len() && spec_field(range_views(line@, fields@), idx)
                    == Ok::<Seq<char>, ParserErrorView>(line@.subrange(b.0 as int, b.1 as int)),
                Err(e) => spec_field(range_views(line@, fields@), idx) == Err::<
                    Seq<char>,
                    ParserErrorView,
                >(e@),
            },
    {
        match idx {
            None => Err(ParserError::FieldNotFound("index not found".to_owned())),
            Some(i) => {
                if i < fields.len() {
                    Ok(fields[i])
                } else {
                    let mut msg: Vec<char> = Vec::new();
                    push_str_chars(&mut msg, "field at index ");
                    push_decimal(&mut msg, i as u64);
                    Err(ParserError::FieldNotFound(string_from_chars(&msg)))
                }
            },
        }
    }

    /// Reads the field at column `idx` as an unsigned integer.
    fn parse_u64_field(&self, line: &Vec<char>, fields: &Vec<(usize, usize)>, idx: Option<usize>) -> (r:
        Result<u64, ParserError>)
        requires
            forall|k: int|
                0 <= k < fields@.len() ==> #[trigger] fields@[k].0 <= fields@[k].1 <= line@.len(),
        ensures
            match r {
                Ok(v) => spec_u64_field(range_views(line@, fields@), idx) == Ok::<
                    u64,
                    ParserErrorView,
                >(v),
                Err(e) => spec_u64_field(range_views(line@, fields@), idx) == Err::<
                    u64,
                    ParserErrorView,
                >(e@),
            },
    {
        let (lo, hi) = self.field_bounds(line, fields, idx)?;
        match parse_u64_range(line, lo, hi) {
            Ok(v) => Ok(v),
            Err(k) => Err(ParserError::ParseIntError(k.message())),
        }
    }

    /// Reads the field at column `idx` as a signed integer.
    fn parse_i64_field(&self, line: &Vec<char>, fields: &Vec<(usize, usize)>, idx: Option<usize>) -> (r:
        Result<i64, ParserError>)
        requires
            forall|k: int|
                0 <= k < fields@.len() ==> #[trigger] fields@[k].0 <= fields@[k].1 <= line@.len(),
        ensures
            match r {
                Ok(v) => spec_i64_field(range_views(line@, fields@), idx) == Ok::<
                    i64,
                    ParserErrorView,
                >(v),
                Err(e) => spec_i64_field(range_views(line@, fields@), idx) == Err::<
                    i64,
                    ParserErrorView,
                >(e@),
            },
    {
        let (lo, hi) = self.field_bounds(line, fields, idx)?;
        match parse_i64_range(line, lo, hi) {
            Ok(v) => Ok(v),
            Err(k) => Err(ParserError::ParseIntError(k.message())),
        }
    }

    /// Reads the field at column `idx` as a transaction kind.
    fn parse_tx_type_field(&self, line: &Vec<char>, fields: &Vec<(usize, usize)>, idx: Option<usize>) -> (r:
        Result<TxType, ParserError>)
        requires
            forall|k: int|
                0 <= k < fields@.len() ==> #[trigger] fields@[k].0 <= fields@[k].1 <= line@.len(),
        ensures
            match r {
                Ok(v) => spec_tx_type_field(range_views(line@, fields@), idx) == Ok::<
                    TxType,
                    ParserErrorView,
                >(v),
                Err(e) => spec_tx_type_field(range_views(line@, fields@), idx) == Err::<
                    TxType,
                    ParserErrorView,
                >(e@),
            },
    {
        let (lo, hi) = self.field_bounds(line, fields, idx)?;
        let mut field: Vec<char> = Vec::new();
        push_range(&mut field, line, lo, hi);
        TxType::try_from_str(string_from_chars(&field).as_str())
    }

    /// Reads the field at column `idx` as a transaction status.
    fn parse_status_field(&self, line: &Vec<char>, fields: &Vec<(usize, usize)>, idx: Option<usize>) -> (r:
        Result<TxStatus, ParserError>)
        requires
            forall|k: int|
                0 <= k < fields@.len() ==> #[trigger] fields@[k].0 <= fields@[k].1 <= line@.len(),
        ensures
            match r {
                Ok(v) => spec_status_field(range_views(line@, fields@), idx) == Ok::<
                    TxStatus,
                    ParserErrorView,
                >(v),
                Err(e) => spec_status_field(range_views(line@, fields@), idx) == Err::<
                    TxStatus,
                    ParserErrorView,
                >(e@),
            },
    {
        let (lo, hi) = self.field_bounds(line, fields, idx)?;
        let mut field: Vec<char> = Vec::new();
        push_range(&mut field, line, lo, hi);
        TxStatus::try_from_str(string_from_chars(&field).as_str())
    }

    /// Reads the field at column `idx` as text.
    fn parse_string_field(&self, line: &Vec<char>, fields: &Vec<(usize, usize)>, idx: Option<usize>) -> (r:
        Result<String, ParserError>)
        requires
            forall|k: int|
                0 <= k < fields@.len() ==> #[trigger] fields@[k].0 <= fields@[k].1 <= line@.len(),
        ensures
            match r {
                Ok(v) => spec_field(range_views(line@, fields@), idx) == Ok::<
                    Seq<char>,
                    ParserErrorView,
                >(v@),
                Err(e) => spec_field(range_views(line@, fields@), idx) == Err::<
                    Seq<char>,
                    ParserErrorView,
                >(e@),
            },
    {
        let (lo, hi) = self.field_bounds(line, fields, idx)?;
        let mut field: Vec<char> = Vec::new();
        push_range(&mut field, line, lo, hi);
        Ok(string_from_chars(&field))
    }

    /// Reads the record in the fields of one line, as the mapping places them.
    fn parse_record(&self, line: &Vec<char>, fields: &Vec<(usize, usize)>) -> (r: Result<
        Record,
        ParserError,
    >)
        requires
            forall|k: int|
                0 <= k < fields@.len() ==> #[trigger] fields@[k].0 <= fields@[k].1 <= line@.len(),
        ensures
            match r {
                Ok(rec) => spec_parse_record(*self, range_views(line@, fields@)) == Ok::<
                    RecordView,
                    ParserErrorView,
                >(rec@),
                Err(e) => spec_parse_record(*self, range_views(line@, fields@)) == Err::<
                    RecordView,
                    ParserErrorView,
                >(e@),
            },
    {
        let id = self.parse_u64_field(line, fields, self.id_idx)?;
        let tx_type = self.parse_tx_type_field(line, fields, self.tx_type_idx)?;
        let from_user_id = self.parse_u64_field(line, fields, self.from_user_id_idx)?;
        let to_user_id = self.parse_u64_field(line, fields, self.to_user_id_idx)?;
        let amount = self.parse_i64_field(line, fields, self.amount_idx)?;
        let timestamp = self.parse_u64_field(line, fields, self.timestamp_idx)?;
        let status = self.parse_status_field(line, fields, self.status_idx)?;
        let description = self.parse_string_field(line, fields, self.description_idx)?;
        Ok(
            Record {
                id,
                tx_type,
                from_user_id,
                to_user_id,
                amount,
                timestamp,
                status,
                description,
            },
        )
    }
}

// ---------------------------------------------------------------------------
// Reading
// ---------------------------------------------------------------------------

/// The state of a CSV parser: the input, where the next line starts, the columns found in the
/// header, and whether a header was read.
pub struct ParserCsvView {
    pub data: Seq<u8>,
    pub pos: int,
    pub mapping: FieldMapping,
    pub is_header_read: bool,
}

/// What reading the next record returns in state `s`, and the state after it. Without a
/// header, or at the end of the input, there is none. A line that is not valid UTF-8 is an
/// I/O error; a line that is empty once trimmed is skipped; any other line, trimmed, is split
/// at its commas into at most as many fields as the header has columns, the last field holding
/// the rest of the line, and read as a record. So a line with more fields than the header has
/// columns has its extra text joined to the last column: under the header `TX_ID`, the line
/// `1,2` gives the identifier `1,2`, which does not read as a number.
pub open spec fn spec_csv_next(s: ParserCsvView) -> (
    Option<Result<RecordView, ParserErrorView>>,
    ParserCsvView,
)
    decreases s.data.len() - s.pos,
{
    if !s.is_header_read || s.pos < 0 || s.pos >= s.data.len() {
        (None, s)
    } else {
        let e = line_end(s.data, s.pos);
        let bytes = s.data.subrange(s.pos, e);
        let s2 = ParserCsvView { pos: e, ..s };
        proof {
            lemma_line_end(s.data, s.pos);
        }
        if !valid_utf8(bytes) {
            (Some(Err(ParserErrorView::IoError(invalid_utf8_message()))), s2)
        } else {
            let line = trim(decode_utf8(bytes));
            if line.len() == 0 {
                spec_csv_next(s2)
            } else {
                (Some(spec_parse_record(s.mapping, split_n(line, ',', s.mapping.columns as nat))), s2)
            }
        }
    }
}

/// The state in which `read_from` leaves a parser of `data`: after the header line, with its
/// columns. An empty input, a header that is not valid UTF-8, or one without a `TX_ID` column
/// is refused.
pub open spec fn spec_csv_read_from(data: Seq<u8>) -> Result<ParserCsvView, ParserErrorView> {
    if data.len() == 0 {
        Err(ParserErrorView::EmptyFile)
    } else {
        let e = line_end(data, 0);
        let bytes = data.subrange(0, e);
        if !valid_utf8(bytes) {
            Err(ParserErrorView::IoError(invalid_utf8_message()))
        } else {
            match spec_from_header(decode_utf8(bytes)) {
                Err(err) => Err(err),
                Ok(mapping) => Ok(ParserCsvView { data, pos: e, mapping, is_header_read: true }),
            }
        }
    }
}

/// Reader of CSV records from the bytes of an input.
pub struct ParserCsv {
    data: Vec<u8>,
    pos: usize,
    mapping: FieldMapping,
    is_header_read: bool,
}

impl View for ParserCsv {
    type V = ParserCsvView;

    closed spec fn view(&self) -> ParserCsvView {
        ParserCsvView {
            data: self.data@,
            pos: self.pos as int,
            mapping: self.mapping,
            is_header_read: self.is_header_read,
        }
    }
}

impl ParserCsv {
    /// A reader of `data` that has read no header, and so yields no record.
    pub fn new(data: Vec<u8>) -> (p: Self)
        ensures
            p@ == (ParserCsvView {
                data: data@,
                pos: 0,
                mapping: FieldMapping {
                    id_idx: None,
                    tx_type_idx: None,
                    from_user_id_idx: None,
                    to_user_id_idx: None,
                    amount_idx: None,
                    timestamp_idx: None,
                    status_idx: None,
                    description_idx: None,
                    columns: 0,
                },
                is_header_read: false,
            }),
    {
        ParserCsv { data, pos: 0, mapping: FieldMapping::default(), is_header_read: false }
    }
}

proof fn lemma_csv_next_progress(s: ParserCsvView)
    ensures
        spec_csv_next(s).0 is Some ==> s.is_header_read && 0 <= s.pos < spec_csv_next(s).1.pos
            <= s.data.len(),
        spec_csv_next(s).1.data == s.data,
        spec_csv_next(s).1.mapping == s.mapping,
        spec_csv_next(s).1.is_header_read == s.is_header_read,
    decreases s.data.len() - s.pos,
{
    if s.is_header_read && 0 <= s.pos < s.data.len() {
        let e = line_end(s.data, s.pos);
        lemma_line_end(s.data, s.pos);
        let s2 = ParserCsvView { pos: e, ..s };
        lemma_csv_next_progress(s2);
    }
}

/// When there is no next record, the parser is left without a header or at the end of its
/// input.
proof fn lemma_csv_none_at_end(s: ParserCsvView)
    ensures
        spec_csv_next(s).0 is None ==> !spec_csv_next(s).1.is_header_read || spec_csv_next(s).1.pos
            < 0 || spec_csv_next(s).1.pos >= spec_csv_next(s).1.data.len(),
    decreases s.data.len() - s.pos,
{
    if s.is_header_read && 0 <= s.pos < s.data.len() {
        let e = line_end(s.data, s.pos);
        lemma_line_end(s.data, s.pos);
        lemma_csv_none_at_end(ParserCsvView { pos: e, ..s });
    }
}

impl Parser for ParserCsv {
    open spec fn spec_remaining(s: ParserCsvView) -> nat {
        if 0 <= s.pos <= s.data.len() {
            (s.data.len() - s.pos) as nat
        } else {
            0
        }
    }

    open spec fn spec_next(s: ParserCsvView) -> (
        Option<Result<RecordView, ParserErrorView>>,
        ParserCsvView,
    ) {
        spec_csv_next(s)
    }

    open spec fn spec_read_from(data: Seq<u8>) -> Result<ParserCsvView, ParserErrorView> {
        spec_csv_read_from(data)
    }

    open spec fn spec_header() -> Seq<u8> {
        encode_utf8(HEADER_FIELDS@)
    }

    open spec fn spec_record_bytes(r: RecordView) -> Seq<u8> {
        encode_utf8(spec_csv_line(r))
    }

    proof fn lemma_next_progress(s: ParserCsvView) {
        lemma_csv_next_progress(s);
    }

    proof fn lemma_none_stays(s: ParserCsvView) {
        lemma_csv_none_at_end(s);
    }

    fn read_from(data: Vec<u8>) -> (r: Result<Self, ParserError>) {
        if data.len() == 0 {
            return Err(ParserError::EmptyFile);
        }
        let e = find_line_end(&data, 0);
        match decode_line(&data, 0, e) {
            None => Err(invalid_utf8_error()),
            Some(line) => {
                let mapping = FieldMapping::from_header(&line)?;
                Ok(ParserCsv { data, pos: e, mapping, is_header_read: true })
            },
        }
    }

    fn next(&mut self) -> (r: Option<Result<Record, ParserError>>) {
        if !self.is_header_read {
            return None;
        }
        let ghost start = self@;
        loop
            invariant
                start == old(self)@,
                self.is_header_read,
                spec_csv_next(start) == spec_csv_next(self@),
            decreases self.data@.len() - self.pos,
        {
            let len = self.data.len();
            if self.pos >= len {
                return None;
            }
            let e = find_line_end(&self.data, self.pos);
            let line = decode_line(&self.data, self.pos, e);
            self.pos = e;
            match line {
                None => {
                    return Some(Err(invalid_utf8_error()));
                },
                Some(line) => {
                    let (a, b) = trim_bounds(&line, 0, line.len());
                    proof {
                        assert(line@.subrange(0, line@.len() as int) =~= line@);
                    }
                    if a < b {
                        let n = if self.mapping.columns == 0 {
                            1
                        } else {
                            self.mapping.columns
                        };
                        let fields = split_ranges_n(&line, a, b, ',', n);
                        return Some(self.mapping.parse_record(&line, &fields));
                    }
                },
            }
        }
    }

    fn remaining(&self) -> (n: usize) {
        if self.pos <= self.data.len() {
            self.data.len() - self.pos
        } else {
            0
        }
    }

    fn write_record(record: &Record, out: &mut Vec<u8>) -> (r: Result<(), ParserError>) {
        let line = record.as_csv_record();
        push_utf8(out, line.as_str());
        Ok(())
    }

    fn write_header(out: &mut Vec<u8>) -> (r: Result<(), ParserError>) {
        push_utf8(out, HEADER_FIELDS);
        Ok(())
    }
}

// ---------------------------------------------------------------------------
// Reading back what was written
// ---------------------------------------------------------------------------

/// A record that the CSV line keeps intact: its description (the last field, which keeps any
/// commas) has no line break and does not end with white space (which trimming the line would
/// drop).
pub open spec fn csv_fits(r: RecordView) -> bool {
    &&& forall|i: int| 0 <= i < r.description.len() ==> #[trigger] r.description[i] != '\n'
    &&& r.description.len() > 0 ==> !is_ws(r.description.last())
}

/// The columns that the header line written by `write_header` gives: the fields in order.
pub open spec fn standard_mapping() -> FieldMapping {
    FieldMapping {
        id_idx: Some(0),
        tx_type_idx: Some(1),
        from_user_id_idx: Some(2),
        to_user_id_idx: Some(3),
        amount_idx: Some(4),
        timestamp_idx: Some(5),
        status_idx: Some(6),
        description_idx: Some(7),
        columns: 8,
    }
}

proof fn lemma_no_char_in_names(c: char)
    requires
        c == ',' || c == '\n',
    ensures
        forall|t: TxType, i: int| 0 <= i < t.spec_name().len() ==> #[trigger] t.spec_name()[i] != c,
        forall|t: TxStatus, i: int|
            0 <= i < t.spec_name().len() ==> #[trigger] t.spec_name()[i] != c,
        forall|t: TxType| #[trigger] t.spec_name().len() > 0 && !is_ws(t.spec_name()[0]),
        forall|t: TxStatus| #[trigger] t.spec_name().len() > 0 && !is_ws(t.spec_name()[0]),
{
    reveal_strlit("DEPOSIT");
    reveal_strlit("TRANSFER");
    reveal_strlit("WITHDRAWAL");
    reveal_strlit("SUCCESS");
    reveal_strlit("FAILURE");
    reveal_strlit("PENDING");
}

/// The eight fields of a record as the CSV line writes them, in column order.
pub open spec fn csv_fields(r: RecordView) -> Seq<Seq<char>> {
    seq![
        decimal(r.id as nat),
        r.tx_type.spec_name(),
        decimal(r.from_user_id as nat),
        decimal(r.to_user_id as nat),
        decimal_signed(r.amount as int),
        decimal(r.timestamp as nat),
        r.status.spec_name(),
        r.description,
    ]
}

proof fn lemma_csv_line_is_join(r: RecordView)
    ensures
        spec_csv_line(r) == join_with(csv_fields(r), ',').push('\n'),
{
    let f = csv_fields(r);
    reveal_with_fuel(join_with, 9);
    assert(spec_csv_line(r) =~= join_with(f, ',').push('\n'));
}

proof fn lemma_csv_fields_lack(r: RecordView, c: char)
    requires
        csv_fits(r),
        c == ',' || c == '\n',
    ensures
        forall|k: int, i: int|
            0 <= k < csv_fields(r).len() && (k < 7 || c == '\n') && 0 <= i < csv_fields(
                r,
            )[k].len() ==> #[trigger] csv_fields(r)[k][i] != c,
{
    lemma_no_char_in_names(c);
    lemma_decimal_no(r.id as nat, c);
    lemma_decimal_no(r.from_user_id as nat, c);
    lemma_decimal_no(r.to_user_id as nat, c);
    lemma_decimal_no(r.timestamp as nat, c);
    lemma_decimal_signed_no(r.amount as int, c);
    let f = csv_fields(r);
    assert forall|k: int, i: int| 0 <= k < f.len() && (k < 7 || c == '\n') && 0 <= i < f[k].len() implies #[trigger] f[k][i]
        != c by {
        if k == 1 {
            assert(r.tx_type.spec_name()[i] != c);
        } else if k == 6 {
            assert(r.status.spec_name()[i] != c);
        }
    }
}

proof fn lemma_csv_fields_parse(r: RecordView)
    ensures
        spec_parse_record(standard_mapping(), csv_fields(r)) == Ok::<RecordView, ParserErrorView>(r),
{
    lemma_parse_u64_decimal(r.id);
    lemma_parse_u64_decimal(r.from_user_id);
    lemma_parse_u64_decimal(r.to_user_id);
    lemma_parse_u64_decimal(r.timestamp);
    lemma_parse_i64_decimal(r.amount);
    lemma_tx_type_name_roundtrip(r.tx_type);
    lemma_tx_status_name_roundtrip(r.status);
}

/// The line of a record is its eight fields joined by commas, then a line break; once trimmed
/// it splits back into the fields, which read as the record under the standard columns.
pub proof fn lemma_csv_line_reads_back(r: RecordView)
    requires
        csv_fits(r),
    ensures
        ({
            let line = spec_csv_line(r);
            let body = line.drop_last();
            &&& line == body.push('\n')
            &&& forall|i: int| 0 <= i < body.len() ==> body[i] != '\n'
            &&& trim(line) == body
            &&& body.len() > 0
            &&& spec_parse_record(standard_mapping(), split_n(body, ',', 8)) == Ok::<
                RecordView,
                ParserErrorView,
            >(r)
        }),
{
    let f = csv_fields(r);
    let body = join_with(f, ',');
    let line = spec_csv_line(r);
    lemma_csv_line_is_join(r);
    assert(line.drop_last() =~= body);
    lemma_csv_fields_lack(r, ',');
    lemma_csv_fields_lack(r, '\n');
    lemma_join_no(f, ',', '\n');
    lemma_join_split_n(f, ',');
    lemma_csv_fields_parse(r);
    lemma_decimal_no(r.id as nat, ',');
    assert(f[0].len() > 0);
    lemma_join_ends(f, ',');
    assert(f.last() == r.description);
    assert(!is_ws(body.last()));
    assert(!is_ws(line[0]));
    assert(line[line.len() - 1] == '\n');
    assert forall|j: int| body.len() <= j < line.len() implies is_ws(#[trigger] line[j]) by {
        assert(j == line.len() - 1);
    }
    assert(line[body.len() - 1] == body.last());
    lemma_trim_drop_end(line, body.len() as int);
    assert(line.subrange(0, body.len() as int) =~= body);
}

/// Reading the bytes of a record's line, with the standard columns, gives the record and moves
/// past them, whatever comes before or after.
pub proof fn lemma_csv_next_reads(r: RecordView, pre: Seq<u8>, post: Seq<u8>)
    requires
        csv_fits(r),
    ensures
        ({
            let bytes = encode_utf8(spec_csv_line(r));
            let data = pre + bytes + post;
            spec_csv_next(
                ParserCsvView {
                    data,
                    pos: pre.len() as int,
                    mapping: standard_mapping(),
                    is_header_read: true,
                },
            ) == (
                Some(Ok::<RecordView, ParserErrorView>(r)),
                ParserCsvView {
                    data,
                    pos: (pre.len() + bytes.len()) as int,
                    mapping: standard_mapping(),
                    is_header_read: true,
                },
            )
        }),
{
    lemma_csv_line_reads_back(r);
    let line = spec_csv_line(r);
    let body = line.drop_last();
    lemma_read_encoded_line(pre, body, post);
    assert(encode_utf8(line).len() > 0) by {
        vstd::utf8::encode_utf8_decode_utf8(line);
    }
}

/// A record's line is reached past any lines before it that are empty once trimmed: reading
/// from the start of those lines, with the standard columns, gives the record and moves past
/// its line, whatever comes before or after.
pub proof fn lemma_csv_reaches_record(
    r: RecordView,
    gap: Seq<Seq<char>>,
    pre: Seq<u8>,
    post: Seq<u8>,
)
    requires
        csv_fits(r),
        forall|i: int|
            0 <= i < gap.len() ==> trim(#[trigger] gap[i]).len() == 0 && forall|j: int|
                0 <= j < gap[i].len() ==> gap[i][j] != '\n',
    ensures
        ({
            let bytes = encode_utf8(lines_text(gap) + spec_csv_line(r));
            let data = pre + bytes + post;
            spec_csv_next(
                ParserCsvView {
                    data,
                    pos: pre.len() as int,
                    mapping: standard_mapping(),
                    is_header_read: true,
                },
            ) == (
                Some(Ok::<RecordView, ParserErrorView>(r)),
                ParserCsvView {
                    data,
                    pos: (pre.len() + bytes.len()) as int,
                    mapping: standard_mapping(),
                    is_header_read: true,
                },
            )
        }),
    decreases gap.len(),
{
    let line_r = spec_csv_line(r);
    if gap.len() == 0 {
        assert(lines_text(gap) + line_r =~= line_r);
        lemma_csv_next_reads(r, pre, post);
    } else {
        let l = gap[0];
        let rest = gap.drop_first();
        let line = l.push('\n');
        let tail = lines_text(rest) + line_r;
        lemma_encode_utf8_concat(line, tail);
        assert(lines_text(gap) + line_r =~= line + tail);
        let lb = encode_utf8(line);
        let rb = encode_utf8(tail);
        let data = pre + encode_utf8(lines_text(gap) + line_r) + post;
        assert(data =~= pre + lb + (rb + post));
        assert forall|j: int| 0 <= j < l.len() implies l[j] != '\n' by {
            assert(gap[0][j] != '\n');
        }
        lemma_read_encoded_line(pre, l, rb + post);
        lemma_trim_push_ws(l, '\n');
        assert(lb.len() > 0) by {
            vstd::utf8::encode_utf8_decode_utf8(line);
        }
        let p = pre.len() as int;
        assert(p < data.len());
        assert(data.subrange(p, line_end(data, p)) == lb);
        assert(trim(decode_utf8(lb)) == trim(l));
        assert forall|i: int| 0 <= i < rest.len() implies trim(#[trigger] rest[i]).len() == 0
            && forall|j: int| 0 <= j < rest[i].len() ==> rest[i][j] != '\n' by {
            assert(rest[i] == gap[i + 1]);
        }
        lemma_csv_reaches_record(r, rest, pre + lb, post);
        assert((pre + lb) + rb + post =~= data);
    }
}

/// The line of a record without its line break, at the end of the input, reads as the record
/// and moves to the end, whatever comes before.
pub proof fn lemma_csv_last_line_reads(r: RecordView, pre: Seq<u8>)
    requires
        csv_fits(r),
    ensures
        ({
            let data = pre + encode_utf8(spec_csv_line(r).drop_last());
            spec_csv_next(
                ParserCsvView {
                    data,
                    pos: pre.len() as int,
                    mapping: standard_mapping(),
                    is_header_read: true,
                },
            ) == (
                Some(Ok::<RecordView, ParserErrorView>(r)),
                ParserCsvView {
                    data,
                    pos: data.len() as int,
                    mapping: standard_mapping(),
                    is_header_read: true,
                },
            )
        }),
{
    lemma_csv_line_reads_back(r);
    let body = spec_csv_line(r).drop_last();
    lemma_trim_push_ws(body, '\n');
    lemma_read_last_line(pre, body);
}

#[verifier::spinoff_prover]
#[verifier::rlimit(40)]
proof fn lemma_csv_read_back_open(rs: Seq<RecordView>, pre: Seq<u8>)
    requires
        rs.len() > 0,
        forall|i: int| 0 <= i < rs.len() ==> csv_fits(#[trigger] rs[i]),
    ensures
        parse_all::<ParserCsv>(
            ParserCsvView {
                data: pre + encode_all::<ParserCsv>(rs.drop_last()) + encode_utf8(
                    spec_csv_line(rs.last()).drop_last(),
                ),
                pos: pre.len() as int,
                mapping: standard_mapping(),
                is_header_read: true,
            },
        ) == (rs, None::<ParserErrorView>),
    decreases rs.len(),
{
    let last = encode_utf8(spec_csv_line(rs.last()).drop_last());
    let data = pre + encode_all::<ParserCsv>(rs.drop_last()) + last;
    assert(csv_fits(rs[rs.len() - 1]));
    if rs.len() == 1 {
        assert(rs.drop_last() =~= Seq::<RecordView>::empty());
        assert(encode_all::<ParserCsv>(rs.drop_last()) =~= Seq::<u8>::empty());
        assert(data =~= pre + last);
        lemma_csv_last_line_reads(rs.last(), pre);
        lemma_csv_line_reads_back(rs.last());
        lemma_read_last_line(pre, spec_csv_line(rs.last()).drop_last());
        let s2 = ParserCsvView {
            data,
            pos: data.len() as int,
            mapping: standard_mapping(),
            is_header_read: true,
        };
        assert(parse_all::<ParserCsv>(s2) == (Seq::<RecordView>::empty(), None::<ParserErrorView>));
        assert(seq![rs.last()] + Seq::<RecordView>::empty() =~= rs);
    } else {
        let r = rs[0];
        let rest = rs.drop_first();
        let b0 = encode_utf8(spec_csv_line(r));
        assert(rs.drop_last().drop_first() =~= rest.drop_last());
        assert(rs.drop_last()[0] == r);
        let after = encode_all::<ParserCsv>(rest.drop_last()) + last;
        assert(encode_all::<ParserCsv>(rs.drop_last()) == b0 + encode_all::<ParserCsv>(
            rest.drop_last(),
        ));
        assert(data =~= pre + b0 + after);
        lemma_csv_next_reads(r, pre, after);
        assert forall|i: int| 0 <= i < rest.len() implies csv_fits(#[trigger] rest[i]) by {
            assert(rest[i] == rs[i + 1]);
        }
        assert(rest.last() == rs.last());
        lemma_csv_read_back_open(rest, pre + b0);
        assert((pre + b0) + encode_all::<ParserCsv>(rest.drop_last()) + last =~= data);
        assert(seq![r] + rest =~= rs);
    }
}

/// The last record's line need not end with a line break: an input of the header line and the
/// lines of a list of records, the last without its line break, reads as exactly those
/// records, with no error, as long as each record fits the CSV line.
pub proof fn lemma_csv_unterminated_reads_back(rs: Seq<RecordView>)
    requires
        rs.len() > 0,
        forall|i: int| 0 <= i < rs.len() ==> csv_fits(#[trigger] rs[i]),
    ensures
        spec_csv_line(rs.last()) == spec_csv_line(rs.last()).drop_last().push('\n'),
        ({
            let data = ParserCsv::spec_header() + encode_all::<ParserCsv>(rs.drop_last())
                + encode_utf8(spec_csv_line(rs.last()).drop_last());
            &&& ParserCsv::spec_read_from(data) matches Ok(s)
            &&& parse_all::<ParserCsv>(s) == (rs, None::<ParserErrorView>)
        }),
{
    assert(csv_fits(rs[rs.len() - 1]));
    lemma_csv_line_reads_back(rs.last());
    let h = encode_utf8(HEADER_FIELDS@);
    let tail = encode_all::<ParserCsv>(rs.drop_last()) + encode_utf8(
        spec_csv_line(rs.last()).drop_last(),
    );
    lemma_csv_header_reads_back(tail);
    assert(h + tail =~= h + encode_all::<ParserCsv>(rs.drop_last()) + encode_utf8(
        spec_csv_line(rs.last()).drop_last(),
    ));
    lemma_csv_read_back_open(rs, h);
}

/// Reading, with the standard columns, the CSV lines of a list of records gives back the
/// records, with no error, as long as each record fits the CSV line.
pub proof fn lemma_csv_read_back(rs: Seq<RecordView>, pre: Seq<u8>)
    requires
        forall|i: int| 0 <= i < rs.len() ==> csv_fits(#[trigger] rs[i]),
    ensures
        parse_all::<ParserCsv>(
            ParserCsvView {
                data: pre + encode_all::<ParserCsv>(rs),
                pos: pre.len() as int,
                mapping: standard_mapping(),
                is_header_read: true,
            },
        ) == (rs, None::<ParserErrorView>),
    decreases rs.len(),
{
    let data = pre + encode_all::<ParserCsv>(rs);
    let s = ParserCsvView {
        data,
        pos: pre.len() as int,
        mapping: standard_mapping(),
        is_header_read: true,
    };
    if rs.len() == 0 {
        assert(data =~= pre);
    } else {
        let r = rs[0];
        let rest = rs.drop_first();
        let bytes = encode_utf8(spec_csv_line(r));
        let after = encode_all::<ParserCsv>(rest);
        assert(data =~= pre + bytes + after);
        lemma_csv_next_reads(r, pre, after);
        assert forall|i: int| 0 <= i < rest.len() implies csv_fits(#[trigger] rest[i]) by {
            assert(rest[i] == rs[i + 1]);
        }
        lemma_csv_read_back(rest, pre + bytes);
        assert((pre + bytes) + after =~= data);
        assert(seq![r] + rest =~= rs);
    }
}

/// The column names of the header line, as written.
pub open spec fn header_parts() -> Seq<Seq<char>> {
    seq![
        "TX_ID"@,
        "TX_TYPE"@,
        "FROM_USER_ID"@,
        "TO_USER_ID"@,
        "AMOUNT"@,
        "TIMESTAMP"@,
        "STATUS"@,
        "DESCRIPTION"@,
    ]
}

/// The column names of the header line, lower-cased.
pub open spec fn header_lower_parts() -> Seq<Seq<char>> {
    seq![
        "tx_id"@,
        "tx_type"@,
        "from_user_id"@,
        "to_user_id"@,
        "amount"@,
        "timestamp"@,
        "status"@,
        "description"@,
    ]
}

proof fn lemma_header_line()
    ensures
        HEADER_FIELDS@ == join_with(header_parts(), ',').push('\n'),
        forall|k: int, i: int|
            0 <= k < 8 && 0 <= i < header_parts()[k].len() ==> #[trigger] header_parts()[k][i]
                != ',' && header_parts()[k][i] != '\n',
        forall|k: int| 0 <= k < 8 ==> #[trigger] header_parts()[k].len() > 0,
        forall|k: int| 0 <= k < 8 ==> !is_ws(#[trigger] header_parts()[k][0]),
        forall|k: int| 0 <= k < 8 ==> !is_ws(#[trigger] header_parts()[k].last()),
        forall|k: int| 0 <= k < 8 ==> is_ascii_chars(#[trigger] header_parts()[k]),
        forall|k: int|
            0 <= k < 8 ==> ascii_lowercase(#[trigger] header_parts()[k]) == header_lower_parts()[k],
{
    reveal_strlit("TX_ID,TX_TYPE,FROM_USER_ID,TO_USER_ID,AMOUNT,TIMESTAMP,STATUS,DESCRIPTION\n");
    reveal_strlit("TX_ID");
    reveal_strlit("TX_TYPE");
    reveal_strlit("FROM_USER_ID");
    reveal_strlit("TO_USER_ID");
    reveal_strlit("AMOUNT");
    reveal_strlit("TIMESTAMP");
    reveal_strlit("STATUS");
    reveal_strlit("DESCRIPTION");
    reveal_strlit("tx_id");
    reveal_strlit("tx_type");
    reveal_strlit("from_user_id");
    reveal_strlit("to_user_id");
    reveal_strlit("amount");
    reveal_strlit("timestamp");
    reveal_strlit("status");
    reveal_strlit("description");
    reveal_with_fuel(join_with, 9);
    assert(HEADER_FIELDS@ =~= join_with(header_parts(), ',').push('\n'));
    assert(ascii_lowercase("TX_ID"@) =~= "tx_id"@);
    assert(ascii_lowercase("TX_TYPE"@) =~= "tx_type"@);
    assert(ascii_lowercase("FROM_USER_ID"@) =~= "from_user_id"@);
    assert(ascii_lowercase("TO_USER_ID"@) =~= "to_user_id"@);
    assert(ascii_lowercase("AMOUNT"@) =~= "amount"@);
    assert(ascii_lowercase("TIMESTAMP"@) =~= "timestamp"@);
    assert(ascii_lowercase("STATUS"@) =~= "status"@);
    assert(ascii_lowercase("DESCRIPTION"@) =~= "description"@);
}

proof fn lemma_last_index_at(names: Seq<Seq<char>>, key: Seq<char>, k: int)
    requires
        0 <= k < names.len(),
        names[k] == key,
        forall|j: int| k < j < names.len() ==> names[j] != key,
    ensures
        last_index(names, key) == Some(k as usize),
    decreases names.len(),
{
    if names.last() != key {
        assert(k < names.len() - 1);
        let d = names.drop_last();
        assert forall|j: int| k < j < d.len() implies d[j] != key by {
            assert(d[j] == names[j]);
        }
        lemma_last_index_at(d, key, k);
    }
}

proof fn lemma_header_mapping()
    ensures
        mapping_of(header_lower_parts()) == standard_mapping(),
{
    reveal_strlit("tx_id");
    reveal_strlit("tx_type");
    reveal_strlit("from_user_id");
    reveal_strlit("to_user_id");
    reveal_strlit("amount");
    reveal_strlit("timestamp");
    reveal_strlit("status");
    reveal_strlit("description");
    let n = header_lower_parts();
    assert("amount"@[0] != "status"@[0]);
    assert forall|i: int, j: int| 0 <= i < j < 8 implies n[i] != n[j] by {
        if n[i].len() == n[j].len() {
            assert(i == 4 && j == 6);
            assert(n[i][0] != n[j][0]);
        }
    }
    lemma_last_index_at(n, n[0], 0);
    lemma_last_index_at(n, n[1], 1);
    lemma_last_index_at(n, n[2], 2);
    lemma_last_index_at(n, n[3], 3);
    lemma_last_index_at(n, n[4], 4);
    lemma_last_index_at(n, n[5], 5);
    lemma_last_index_at(n, n[6], 6);
    lemma_last_index_at(n, n[7], 7);
}

/// The columns may come in any order: when each of the eight field names occurs exactly once
/// among the (lower-cased) column names, at the column `cols[k]` for the `k`-th field, a line
/// whose column `cols[k]` holds the text that the CSV line writes for that field reads as the
/// record, whatever the other columns hold.
pub proof fn lemma_csv_any_column_order(
    names: Seq<Seq<char>>,
    cols: Seq<int>,
    fields: Seq<Seq<char>>,
    r: RecordView,
)
    requires
        names.len() <= usize::MAX,
        cols.len() == 8,
        forall|k: int| 0 <= k < 8 ==> 0 <= #[trigger] cols[k] < names.len() && cols[k] < fields.len(),
        forall|k: int| 0 <= k < 8 ==> names[#[trigger] cols[k]] == header_lower_parts()[k],
        forall|k: int, j: int|
            0 <= k < 8 && 0 <= j < names.len() && j != cols[k] ==> #[trigger] names[j]
                != #[trigger] header_lower_parts()[k],
        forall|k: int| 0 <= k < 8 ==> fields[#[trigger] cols[k]] == csv_fields(r)[k],
    ensures
        spec_parse_record(mapping_of(names), fields) == Ok::<RecordView, ParserErrorView>(r),
{
    let n = header_lower_parts();
    assert forall|k: int| 0 <= k < 8 implies last_index(names, #[trigger] n[k]) == Some(
        cols[k] as usize,
    ) by {
        assert forall|j: int| cols[k] < j < names.len() implies names[j] != n[k] by {}
        lemma_last_index_at(names, n[k], cols[k]);
    }
    assert(last_index(names, n[0]) == Some(cols[0] as usize));
    assert(last_index(names, n[1]) == Some(cols[1] as usize));
    assert(last_index(names, n[2]) == Some(cols[2] as usize));
    assert(last_index(names, n[3]) == Some(cols[3] as usize));
    assert(last_index(names, n[4]) == Some(cols[4] as usize));
    assert(last_index(names, n[5]) == Some(cols[5] as usize));
    assert(last_index(names, n[6]) == Some(cols[6] as usize));
    assert(last_index(names, n[7]) == Some(cols[7] as usize));
    let f = csv_fields(r);
    assert(fields[cols[0]] == f[0]);
    assert(fields[cols[1]] == f[1]);
    assert(fields[cols[2]] == f[2]);
    assert(fields[cols[3]] == f[3]);
    assert(fields[cols[4]] == f[4]);
    assert(fields[cols[5]] == f[5]);
    assert(fields[cols[6]] == f[6]);
    assert(fields[cols[7]] == f[7]);
    lemma_parse_u64_decimal(r.id);
    lemma_parse_u64_decimal(r.from_user_id);
    lemma_parse_u64_decimal(r.to_user_id);
    lemma_parse_u64_decimal(r.timestamp);
    lemma_parse_i64_decimal(r.amount);
    lemma_tx_type_name_roundtrip(r.tx_type);
    lemma_tx_status_name_roundtrip(r.status);
}

/// Reading the header line that `write_header` writes, followed by anything, gives the
/// standard columns and moves past the line.
pub proof fn lemma_csv_header_reads_back(rest: Seq<u8>)
    ensures
        spec_csv_read_from(encode_utf8(HEADER_FIELDS@) + rest) == Ok::<
            ParserCsvView,
            ParserErrorView,
        >(
            ParserCsvView {
                data: encode_utf8(HEADER_FIELDS@) + rest,
                pos: encode_utf8(HEADER_FIELDS@).len() as int,
                mapping: standard_mapping(),
                is_header_read: true,
            },
        ),
{
    lemma_header_line();
    let parts = header_parts();
    let h = join_with(parts, ',');
    let data = encode_utf8(HEADER_FIELDS@) + rest;
    lemma_join_no(parts, ',', '\n');
    lemma_read_encoded_line(Seq::<u8>::empty(), h, rest);
    assert(Seq::<u8>::empty() + encode_utf8(HEADER_FIELDS@) + rest =~= data);
    assert(data.subrange(0, line_end(data, 0)) == encode_utf8(HEADER_FIELDS@));
    let line = HEADER_FIELDS@;
    // The header line, trimmed, is the joined names.
    lemma_join_ends(parts, ',');
    assert(parts.last() == "DESCRIPTION"@);
    assert(line[h.len() as int] == '\n');
    assert forall|j: int| h.len() <= j < line.len() implies is_ws(#[trigger] line[j]) by {
        assert(j == h.len());
    }
    assert(line[0] == h[0]);
    assert(line[h.len() - 1] == h.last());
    lemma_trim_drop_end(line, h.len() as int);
    assert(line.subrange(0, h.len() as int) =~= h);
    // It splits into the names, each its own trim, lower-cased as written.
    lemma_join_split(parts, ',');
    assert forall|k: int| 0 <= k < 8 implies #[trigger] lowered(trim(parts[k]))
        == header_lower_parts()[k] by {
        lemma_trim_noop(parts[k]);
    }
    assert(header_names(line) =~= header_lower_parts());
    lemma_header_mapping();
}

/// Reading what `write_header` and then `write_record` for each of a list of records write
/// gives back the records, with no error, as long as each record fits the CSV line.
pub proof fn lemma_csv_written_reads_back(rs: Seq<RecordView>)
    requires
        forall|i: int| 0 <= i < rs.len() ==> csv_fits(#[trigger] rs[i]),
    ensures
        ({
            let data = ParserCsv::spec_header() + encode_all::<ParserCsv>(rs);
            &&& ParserCsv::spec_read_from(data) matches Ok(s)
            &&& parse_all::<ParserCsv>(s) == (rs, None::<ParserErrorView>)
        }),
{
    let h = encode_utf8(HEADER_FIELDS@);
    lemma_csv_header_reads_back(encode_all::<ParserCsv>(rs));
    lemma_csv_read_back(rs, h);
}

} // verus!
