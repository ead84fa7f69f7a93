//! The text format: each record is a block of `KEY: value` lines in any order, ended by an
//! empty line. Lines starting with `#` are comments. The first line of an input is a title and
//! is skipped.
use vstd::prelude::*;
use vstd::utf8::{decode_utf8, valid_utf8};

use crate::errors::{invalid_utf8_error, invalid_utf8_message, ParseRecordError, ParserError, ParserErrorView};
use crate::record::{Record, RecordView, TxStatus, TxType};
use crate::text::{
    chars_of, decimal, decimal_signed, decode_line, find_char, find_line_end, int_error_message,
    lemma_line_end, line_end, lowered, parse_i64_range, parse_u64_range, push_decimal,
    push_decimal_signed, push_range, push_str_chars, push_utf8, range_eq, spec_parse_i64,
    spec_parse_u64, split_once, string_from_chars, trim, trim_bounds,
};
use crate::types::{encode_all, parse_all, Parser};
use crate::text::{
    is_ws, join_with, lemma_decimal_no, lemma_decimal_signed_no, lemma_encode_utf8_concat,
    lemma_parse_i64_decimal, lemma_parse_u64_decimal, lemma_read_encoded_line, lemma_read_last_line, lemma_trim_push_ws, lines_text, lemma_split_once_at,
    lemma_trim_drop_end, lemma_trim_noop, lemma_trim_start_of, lemma_trim_end_of, trim_end, trim_start,
};
use crate::record::{lemma_tx_status_name_roundtrip, lemma_tx_type_name_roundtrip};
use vstd::utf8::encode_utf8;

verus! {

// ---------------------------------------------------------------------------
// Writing
// ---------------------------------------------------------------------------

/// The block of a record: one `KEY: value` line per field in a fixed order, then an empty
/// line.
pub open spec fn spec_txt_block(r: RecordView) -> Seq<char> {
    "TX_ID: "@ + decimal(r.id as nat) + seq!['\n'] + "TX_TYPE: "@ + r.tx_type.spec_name()
        + seq!['\n'] + "FROM_USER_ID: "@ + decimal(r.from_user_id as nat) + seq!['\n']
        + "TO_USER_ID: "@ + decimal(r.to_user_id as nat) + seq!['\n'] + "AMOUNT: "@
        + decimal_signed(r.amount as int) + seq!['\n'] + "TIMESTAMP: "@ + decimal(
        r.timestamp as nat,
    ) + seq!['\n'] + "STATUS: "@ + r.status.spec_name() + seq!['\n'] + "DESCRIPTION: "@
        + r.description + seq!['\n'] + seq!['\n']
}

/// A record shown as a text block.
pub struct TxtDisplay<'a>(pub &'a Record);

impl<'a> TxtDisplay<'a> {
    /// The text block of the record, ending with an empty line.
    pub fn to_string(&self) -> (s: String)
        ensures
            s@ == spec_txt_block(self.0@),
    {
        let item = self.0;
        let mut v: Vec<char> = Vec::new();
        push_str_chars(&mut v, "TX_ID: ");
        push_decimal(&mut v, item.id);
        v.push('\n');
        push_str_chars(&mut v, "TX_TYPE: ");
        push_str_chars(&mut v, item.tx_type.as_str());
        v.push('\n');
        push_str_chars(&mut v, "FROM_USER_ID: ");
        push_decimal(&mut v, item.from_user_id);
        v.push('\n');
        push_str_chars(&mut v, "TO_USER_ID: ");
        push_decimal(&mut v, item.to_user_id);
        v.push('\n');
        push_str_chars(&mut v, "AMOUNT: ");
        push_decimal_signed(&mut v, item.amount);
        v.push('\n');
        push_str_chars(&mut v, "TIMESTAMP: ");
        push_decimal(&mut v, item.timestamp);
        v.push('\n');
        push_str_chars(&mut v, "STATUS: ");
        push_str_chars(&mut v, item.status.as_str());
        v.push('\n');
        push_str_chars(&mut v, "DESCRIPTION: ");
        push_str_chars(&mut v, item.description.as_str());
        v.push('\n');
        v.push('\n');
        proof {
            assert(v@ =~= spec_txt_block(item@));
        }
        string_from_chars(&v)
    }
}

impl Record {
    /// The text block of the record, ending with an empty line.
    pub fn as_txt_record(&self) -> (s: String)
        ensures
            s@ == spec_txt_block(self@),
    {
        TxtDisplay(self).to_string()
    }
}

// ---------------------------------------------------------------------------
// Reading
// ---------------------------------------------------------------------------

/// The keys of a record's fields, in the order in which they are read.
pub open spec fn txt_key(i: int) -> Seq<char> {
    if i == 0 {
        "TX_ID"@
    } else if i == 1 {
        "TX_TYPE"@
    } else if i == 2 {
        "FROM_USER_ID"@
    } else if i == 3 {
        "TO_USER_ID"@
    } else if i == 4 {
        "AMOUNT"@
    } else if i == 5 {
        "TIMESTAMP"@
    } else if i == 6 {
        "STATUS"@
    } else {
        "DESCRIPTION"@
    }
}

/// Which field a key names, if any (the first of equal keys; the keys are distinct).
pub open spec fn txt_key_index(k: Seq<char>) -> Option<int> {
    if k == txt_key(0) {
        Some(0)
    } else if k == txt_key(1) {
        Some(1)
    } else if k == txt_key(2) {
        Some(2)
    } else if k == txt_key(3) {
        Some(3)
    } else if k == txt_key(4) {
        Some(4)
    } else if k == txt_key(5) {
        Some(5)
    } else if k == txt_key(6) {
        Some(6)
    } else if k == txt_key(7) {
        Some(7)
    } else {
        None
    }
}

/// No field has a value yet.
pub open spec fn no_fields() -> Seq<Option<Seq<char>>> {
    Seq::new(8, |i: int| None)
}

/// How reading the lines of one block ends: with an error and where reading stopped, or with
/// the values found for the fields, whether any `key: value` line was read, and where the next
/// block starts.
pub enum TxtScan {
    Fail(ParserErrorView, int),
    Done(Seq<Option<Seq<char>>>, bool, int),
}

/// Reads the lines of a block from `pos`, with the values `fields` found so far and `any`
/// telling whether a `key: value` line was read yet. A line that is not valid UTF-8 is an I/O
/// error; each line is trimmed; comment lines are skipped; an empty line or the end of the
/// input ends the block; a line without `:` is refused; otherwise the trimmed text before the
/// first `:` is the key and the trimmed rest its value, a later value of a key replacing an
/// earlier one and unknown keys being ignored.
pub open spec fn txt_scan(data: Seq<u8>, pos: int, fields: Seq<Option<Seq<char>>>, any: bool) -> TxtScan
    decreases data.len() - pos,
{
    if pos < 0 || pos >= data.len() {
        TxtScan::Done(fields, any, pos)
    } else {
        let e = line_end(data, pos);
        let bytes = data.subrange(pos, e);
        proof {
            lemma_line_end(data, pos);
        }
        if !valid_utf8(bytes) {
            TxtScan::Fail(ParserErrorView::IoError(invalid_utf8_message()), e)
        } else {
            let t = trim(decode_utf8(bytes));
            if t.len() > 0 && t[0] == '#' {
                txt_scan(data, e, fields, any)
            } else if t.len() == 0 {
                TxtScan::Done(fields, any, e)
            } else {
                match split_once(t, ':') {
                    None => TxtScan::Fail(ParserErrorView::InvalidLineFormat, e),
                    Some((k, v)) => match txt_key_index(trim(k)) {
                        Some(i) => txt_scan(data, e, fields.update(i, Some(trim(v))), true),
                        None => txt_scan(data, e, fields, true),
                    },
                }
            }
        }
    }
}

/// The error of a block that has no line for field `i`.
pub open spec fn txt_missing(i: int) -> ParserErrorView {
    ParserErrorView::FieldNotFound(txt_key(i))
}

/// The record that the values of a block give. Fields are taken in key order; the first that
/// is missing or cannot be read gives the error.
pub open spec fn spec_txt_record(f: Seq<Option<Seq<char>>>) -> Result<RecordView, ParserErrorView> {
    match f[0] {
        None => Err(txt_missing(0)),
        Some(s0) => match spec_parse_u64(s0) {
            Err(k) => Err(ParserErrorView::ParseIntError(int_error_message(k))),
            Ok(id) => match f[1] {
                None => Err(txt_missing(1)),
                Some(s1) => match TxType::spec_from_lower(lowered(s1)) {
                    None => Err(ParserErrorView::ParseRecord(ParseRecordError::UnknownTxType)),
                    Some(tx_type) => match f[2] {
                        None => Err(txt_missing(2)),
                        Some(s2) => match spec_parse_u64(s2) {
                            Err(k) => Err(ParserErrorView::ParseIntError(int_error_message(k))),
                            Ok(from_user_id) => match f[3] {
                                None => Err(txt_missing(3)),
                                Some(s3) => match spec_parse_u64(s3) {
                                    Err(k) => Err(ParserErrorView::ParseIntError(int_error_message(k))),
                                    Ok(to_user_id) => match f[4] {
                                        None => Err(txt_missing(4)),
                                        Some(s4) => match spec_parse_i64(s4) {
                                            Err(k) => Err(ParserErrorView::ParseIntError(int_error_message(k))),
                                            Ok(amount) => match f[5] {
                                                None => Err(txt_missing(5)),
                                                Some(s5) => match spec_parse_u64(s5) {
                                                    Err(k) => Err(ParserErrorView::ParseIntError(int_error_message(k))),
                                                    Ok(timestamp) => match f[6] {
                                                        None => Err(txt_missing(6)),
                                                        Some(s6) => match TxStatus::spec_from_lower(lowered(s6)) {
                                                            None => Err(ParserErrorView::ParseRecord(ParseRecordError::UnknownStatus)),
                                                            Some(status) => match f[7] {
                                                                None => Err(txt_missing(7)),
                                                                Some(description) => Ok(RecordView {
                                                                    id,
                                                                    tx_type,
                                                                    from_user_id,
                                                                    to_user_id,
                                                                    amount,
                                                                    timestamp,
                                                                    status,
                                                                    description,
                                                                }),
                                                            },
                                                        },
                                                    },
                                                },
                                            },
                                        },
                                    },
                                },
                            },
                        },
                    },
                },
            },
        },
    }
}

/// The state of a text parser: the input and where the next block starts.
pub struct ParserTxtView {
    pub data: Seq<u8>,
    pub pos: int,
}

/// What reading the next record returns in state `s`, and the state after it. A block with
/// at least one `key: value` line gives its record or the error in it; a block without one
/// (empty lines, comments) is skipped; there is no record only at the end of the input.
pub open spec fn spec_txt_next(s: ParserTxtView) -> (
    Option<Result<RecordView, ParserErrorView>>,
    ParserTxtView,
)
    decreases s.data.len() - s.pos,
{
    match txt_scan(s.data, s.pos, no_fields(), false) {
        TxtScan::Fail(e, p) => (Some(Err(e)), ParserTxtView { data: s.data, pos: p }),
        TxtScan::Done(f, any, p) => if any {
            (Some(spec_txt_record(f)), ParserTxtView { data: s.data, pos: p })
        } else if s.pos < p < s.data.len() {
            spec_txt_next(ParserTxtView { data: s.data, pos: p })
        } else {
            (None, ParserTxtView { data: s.data, pos: p })
        },
    }
}

/// The state in which `read_from` leaves a parser of `data`: after the first line. An empty
/// input, or a first line that is not valid UTF-8, is refused.
pub open spec fn spec_txt_read_from(data: Seq<u8>) -> Result<ParserTxtView, ParserErrorView> {
    if data.len() == 0 {
        Err(ParserErrorView::EmptyFile)
    } else if !valid_utf8(data.subrange(0, line_end(data, 0))) {
        Err(ParserErrorView::IoError(invalid_utf8_message()))
    } else {
        Ok(ParserTxtView { data, pos: line_end(data, 0) })
    }
}

proof fn lemma_txt_scan_progress(data: Seq<u8>, pos: int, fields: Seq<Option<Seq<char>>>, any: bool)
    ensures
        match txt_scan(data, pos, fields, any) {
            TxtScan::Fail(_, p) => 0 <= pos < p <= data.len(),
            TxtScan::Done(f, a, p) => if 0 <= pos < data.len() {
                pos < p <= data.len()
            } else {
                p == pos && f == fields && a == any
            },
        },
    decreases data.len() - pos,
{
    if 0 <= pos < data.len() {
        let e = line_end(data, pos);
        lemma_line_end(data, pos);
        let bytes = data.subrange(pos, e);
        if valid_utf8(bytes) {
            let t = trim(decode_utf8(bytes));
            if t.len() > 0 && t[0] == '#' {
                lemma_txt_scan_progress(data, e, fields, any);
            } else if t.len() != 0 {
                match split_once(t, ':') {
                    None => {},
                    Some((k, v)) => match txt_key_index(trim(k)) {
                        Some(i) => lemma_txt_scan_progress(
                            data,
                            e,
                            fields.update(i, Some(trim(v))),
                            true,
                        ),
                        None => lemma_txt_scan_progress(data, e, fields, true),
                    },
                }
            }
        }
    }
}

/// Each record or error that `next` returns consumes input, and the input stays the same.
proof fn lemma_txt_next_progress(s: ParserTxtView)
    ensures
        spec_txt_next(s).1.data == s.data,
        spec_txt_next(s).0 is Some ==> 0 <= s.pos < spec_txt_next(s).1.pos <= s.data.len(),
    decreases s.data.len() - s.pos,
{
    lemma_txt_scan_progress(s.data, s.pos, no_fields(), false);
    match txt_scan(s.data, s.pos, no_fields(), false) {
        TxtScan::Fail(_, _) => {},
        TxtScan::Done(f, any, p) => {
            if !any && s.pos < p < s.data.len() {
                lemma_txt_next_progress(ParserTxtView { data: s.data, pos: p });
            }
        },
    }
}

/// When there is no next record, the parser is left outside its input (at its end).
proof fn lemma_txt_none_at_end(s: ParserTxtView)
    ensures
        spec_txt_next(s).1.data == s.data,
        spec_txt_next(s).0 is None ==> spec_txt_next(s).1.pos < 0 || spec_txt_next(s).1.pos
            >= s.data.len(),
    decreases s.data.len() - s.pos,
{
    lemma_txt_scan_progress(s.data, s.pos, no_fields(), false);
    match txt_scan(s.data, s.pos, no_fields(), false) {
        TxtScan::Fail(_, _) => {},
        TxtScan::Done(f, any, p) => {
            if !any && s.pos < p < s.data.len() {
                lemma_txt_none_at_end(ParserTxtView { data: s.data, pos: p });
            }
        },
    }
}

/// Reader of text records from the bytes of an input.
pub struct ParserTxt {
    data: Vec<u8>,
    pos: usize,
}

impl View for ParserTxt {
    type V = ParserTxtView;

    closed spec fn view(&self) -> ParserTxtView {
        ParserTxtView { data: self.data@, pos: self.pos as int }
    }
}

/// The values of the fields found so far.
pub open spec fn fields_view(v: Seq<Option<Vec<char>>>) -> Seq<Option<Seq<char>>> {
    v.map_values(|o: Option<Vec<char>>| match o {
        Some(x) => Some(x@),
        None => None,
    })
}

/// Which field the key in `line[lo..hi]` names.
fn key_index(line: &Vec<char>, lo: usize, hi: usize, keys: &Vec<Vec<char>>) -> (r: Option<usize>)
    requires
        lo <= hi <= line@.len(),
        keys@.len() == 8,
        forall|i: int| 0 <= i < 8 ==> (#[trigger] keys@[i])@ == txt_key(i),
    ensures
        match txt_key_index(line@.subrange(lo as int, hi as int)) {
            Some(i) => r == Some(i as usize),
            None => r is None,
        },
{
    let mut i: usize = 0;
    while i < 8
        invariant
            0 <= i <= 8,
            lo <= hi <= line@.len(),
            keys@.len() == 8,
            forall|j: int| 0 <= j < 8 ==> (#[trigger] keys@[j])@ == txt_key(j),
            forall|j: int| 0 <= j < i ==> line@.subrange(lo as int, hi as int) != txt_key(j),
        decreases 8 - i,
    {
        if range_eq(line, lo, hi, &keys[i]) {
            return Some(i);
        }
        i = i + 1;
    }
    None
}

/// Reads one field value as an unsigned integer.
fn txt_u64(v: &Vec<char>) -> (r: Result<u64, ParserError>)
    ensures
        match spec_parse_u64(v@) {
            Ok(x) => r == Ok::<u64, ParserError>(x),
            Err(k) => r matches Err(e) && e@ == ParserErrorView::ParseIntError(int_error_message(k)),
        },
{
    proof {
        assert(v@.subrange(0, v@.len() as int) =~= v@);
    }
    match parse_u64_range(v, 0, v.len()) {
        Ok(x) => Ok(x),
        Err(k) => Err(ParserError::ParseIntError(k.message())),
    }
}

/// Reads one field value as a signed integer.
fn txt_i64(v: &Vec<char>) -> (r: Result<i64, ParserError>)
    ensures
        match spec_parse_i64(v@) {
            Ok(x) => r == Ok::<i64, ParserError>(x),
            Err(k) => r matches Err(e) && e@ == ParserErrorView::ParseIntError(int_error_message(k)),
        },
{
    proof {
        assert(v@.subrange(0, v@.len() as int) =~= v@);
    }
    match parse_i64_range(v, 0, v.len()) {
        Ok(x) => Ok(x),
        Err(k) => Err(ParserError::ParseIntError(k.message())),
    }
}

/// The error of a block that has no line for field `i`.
fn txt_missing_error(i: usize) -> (e: ParserError)
    requires
        i < 8,
    ensures
        e@ == txt_missing(i as int),
{
    proof {
        reveal_strlit("TX_ID");
        reveal_strlit("TX_TYPE");
        reveal_strlit("FROM_USER_ID");
        reveal_strlit("TO_USER_ID");
        reveal_strlit("AMOUNT");
        reveal_strlit("TIMESTAMP");
        reveal_strlit("STATUS");
        reveal_strlit("DESCRIPTION");
    }
    let key = if i == 0 {
        "TX_ID"
    } else if i == 1 {
        "TX_TYPE"
    } else if i == 2 {
        "FROM_USER_ID"
    } else if i == 3 {
        "TO_USER_ID"
    } else if i == 4 {
        "AMOUNT"
    } else if i == 5 {
        "TIMESTAMP"
    } else if i == 6 {
        "STATUS"
    } else {
        "DESCRIPTION"
    };
    ParserError::FieldNotFound(key.to_owned())
}

/// Builds the record from the values of a block.
fn txt_record(f: &Vec<Option<Vec<char>>>) -> (r: Result<Record, ParserError>)
    requires
        f@.len() == 8,
    ensures
        match r {
            Ok(rec) => spec_txt_record(fields_view(f@)) == Ok::<RecordView, ParserErrorView>(rec@),
            Err(e) => spec_txt_record(fields_view(f@)) == Err::<RecordView, ParserErrorView>(e@),
        },
{
    let ghost fv = fields_view(f@);
    assert(forall|i: int| 0 <= i < 8 ==> #[trigger] fv[i] == match f@[i] {
        Some(x) => Some(x@),
        None => None::<Seq<char>>,
    });
    let id = match &f[0] {
        None => return Err(txt_missing_error(0)),
        Some(s) => match txt_u64(s) {
            Ok(x) => x,
            Err(e) => return Err(e),
        },
    };
    let tx_type = match &f[1] {
        None => return Err(txt_missing_error(1)),
        Some(s) => match TxType::try_from_str(string_from_chars(s).as_str()) {
            Ok(x) => x,
            Err(e) => return Err(e),
        },
    };
    let from_user_id = match &f[2] {
        None => return Err(txt_missing_error(2)),
        Some(s) => match txt_u64(s) {
            Ok(x) => x,
            Err(e) => return Err(e),
        },
    };
    let to_user_id = match &f[3] {
        None => return Err(txt_missing_error(3)),
        Some(s) => match txt_u64(s) {
            Ok(x) => x,
            Err(e) => return Err(e),
        },
    };
    let amount = match &f[4] {
        None => return Err(txt_missing_error(4)),
        Some(s) => match txt_i64(s) {
            Ok(x) => x,
            Err(e) => return Err(e),
        },
    };
    let timestamp = match &f[5] {
        None => return Err(txt_missing_error(5)),
        Some(s) => match txt_u64(s) {
            Ok(x) => x,
            Err(e) => return Err(e),
        },
    };
    let status = match &f[6] {
        None => return Err(txt_missing_error(6)),
        Some(s) => match TxStatus::try_from_str(string_from_chars(s).as_str()) {
            Ok(x) => x,
            Err(e) => return Err(e),
        },
    };
    let description = match &f[7] {
        None => return Err(txt_missing_error(7)),
        Some(s) => string_from_chars(s),
    };
    Ok(
        Record {
            id,
            tx_type,
            from_user_id,
            to_user_id,
            amount,
            timestamp,
            status,
            description,
        },
    )
}

impl ParserTxt {
    /// The keys of the fields, in reading order.
    fn keys() -> (k: Vec<Vec<char>>)
        ensures
            k@.len() == 8,
            forall|i: int| 0 <= i < 8 ==> (#[trigger] k@[i])@ == txt_key(i),
    {
        let mut k: Vec<Vec<char>> = Vec::new();
        k.push(chars_of("TX_ID"));
        k.push(chars_of("TX_TYPE"));
        k.push(chars_of("FROM_USER_ID"));
        k.push(chars_of("TO_USER_ID"));
        k.push(chars_of("AMOUNT"));
        k.push(chars_of("TIMESTAMP"));
        k.push(chars_of("STATUS"));
        k.push(chars_of("DESCRIPTION"));
        k
    }

    /// Reads the lines of one block: the values found and whether a `key: value` line was
    /// read, or the error that ends it.
    fn read_block(&mut self, keys: &Vec<Vec<char>>) -> (r: Result<
        (Vec<Option<Vec<char>>>, bool),
        ParserError,
    >)
        requires
            keys@.len() == 8,
            forall|j: int| 0 <= j < 8 ==> (#[trigger] keys@[j])@ == txt_key(j),
        ensures
            final(self)@.data == old(self)@.data,
            match r {
                Ok((f, any)) => f@.len() == 8 && txt_scan(
                    old(self)@.data,
                    old(self)@.pos,
                    no_fields(),
                    false,
                ) == TxtScan::Done(fields_view(f@), any, final(self)@.pos),
                Err(e) => txt_scan(old(self)@.data, old(self)@.pos, no_fields(), false)
                    == TxtScan::Fail(e@, final(self)@.pos),
            },
    {
        let mut fields: Vec<Option<Vec<char>>> = Vec::new();
        let mut i: usize = 0;
        while i < 8
            invariant
                0 <= i <= 8,
                fields@.len() == i,
                forall|j: int| 0 <= j < i ==> fields@[j] is None,
            decreases 8 - i,
        {
            fields.push(None);
            i = i + 1;
        }
        proof {
            assert(fields_view(fields@) =~= no_fields());
        }
        let mut any = false;
        let ghost start = self@;
        loop
            invariant
                start == old(self)@,
                self@.data == start.data,
                fields@.len() == 8,
                keys@.len() == 8,
                forall|j: int| 0 <= j < 8 ==> (#[trigger] keys@[j])@ == txt_key(j),
                txt_scan(start.data, start.pos, no_fields(), false) == txt_scan(
                    self@.data,
                    self@.pos,
                    fields_view(fields@),
                    any,
                ),
            decreases self.data@.len() - self.pos,
        {
            let len = self.data.len();
            if self.pos >= len {
                return Ok((fields, any));
            }
            let e = find_line_end(&self.data, self.pos);
            let line = decode_line(&self.data, self.pos, e);
            self.pos = e;
            match line {
                None => {
                    return Err(invalid_utf8_error());
                },
                Some(line) => {
                    let (a, b) = trim_bounds(&line, 0, line.len());
                    proof {
                        assert(line@.subrange(0, line@.len() as int) =~= line@);
                    }
                    if a < b && line[a] == '#' {
                        proof {
                            assert(line@.subrange(a as int, b as int)[0] == line@[a as int]);
                        }
                    } else if a == b {
                        return Ok((fields, any));
                    } else {
                        let c = find_char(&line, a, b, ':');
                        if c == b {
                            return Err(ParserError::InvalidLineFormat);
                        }
                        let ghost t = line@.subrange(a as int, b as int);
                        proof {
                            assert(t.take(c - a) =~= line@.subrange(a as int, c as int));
                            assert(t.skip(c - a + 1) =~= line@.subrange(c + 1, b as int));
                        }
                        any = true;
                        let (ka, kb) = trim_bounds(&line, a, c);
                        let (va, vb) = trim_bounds(&line, c + 1, b);
                        match key_index(&line, ka, kb, keys) {
                            Some(k) => {
                                let mut value: Vec<char> = Vec::new();
                                push_range(&mut value, &line, va, vb);
                                let ghost before = fields@;
                                fields.set(k, Some(value));
                                proof {
                                    assert(fields_view(fields@) =~= fields_view(before).update(
                                        k as int,
                                        Some(value@),
                                    ));
                                }
                            },
                            None => {},
                        }
                    }
                },
            }
        }
    }
}

impl Parser for ParserTxt {
    open spec fn spec_remaining(s: ParserTxtView) -> nat {
        if 0 <= s.pos <= s.data.len() {
            (s.data.len() - s.pos) as nat
        } else {
            0
        }
    }

    open spec fn spec_next(s: ParserTxtView) -> (
        Option<Result<RecordView, ParserErrorView>>,
        ParserTxtView,
    ) {
        spec_txt_next(s)
    }

    open spec fn spec_read_from(data: Seq<u8>) -> Result<ParserTxtView, ParserErrorView> {
        spec_txt_read_from(data)
    }

    open spec fn spec_header() -> Seq<u8> {
        seq![]
    }

    open spec fn spec_record_bytes(r: RecordView) -> Seq<u8> {
        encode_utf8(spec_txt_block(r))
    }

    proof fn lemma_next_progress(s: ParserTxtView) {
        lemma_txt_next_progress(s);
    }

    proof fn lemma_none_stays(s: ParserTxtView) {
        lemma_txt_none_at_end(s);
        let q = spec_txt_next(s).1;
        lemma_txt_scan_progress(q.data, q.pos, no_fields(), false);
    }

    fn read_from(data: Vec<u8>) -> (r: Result<Self, ParserError>) {
        if data.len() == 0 {
            return Err(ParserError::EmptyFile);
        }
        let e = find_line_end(&data, 0);
        match decode_line(&data, 0, e) {
            None => Err(invalid_utf8_error()),
            Some(_) => Ok(ParserTxt { data, pos: e }),
        }
    }

    fn next(&mut self) -> (r: Option<Result<Record, ParserError>>) {
        let keys = ParserTxt::keys();
        let ghost start = self@;
        loop
            invariant
                start == old(self)@,
                self@.data == start.data,
                keys@.len() == 8,
                forall|j: int| 0 <= j < 8 ==> (#[trigger] keys@[j])@ == txt_key(j),
                spec_txt_next(start) == spec_txt_next(self@),
            decreases self.data@.len() - self.pos,
        {
            let p0 = self.pos;
            match self.read_block(&keys) {
                Err(e) => {
                    return Some(Err(e));
                },
                Ok((fields, any)) => {
                    if any {
                        return Some(txt_record(&fields));
                    }
                    if !(p0 < self.pos && self.pos < self.data.len()) {
                        return None;
                    }
                },
            }
        }
    }

    fn remaining(&self) -> (n: usize) {
        if self.pos <= self.data.len() {
            self.data.len() - self.pos
        } else {
            0
        }
    }

    fn write_record(record: &Record, out: &mut Vec<u8>) -> (r: Result<(), ParserError>) {
        let block = record.as_txt_record();
        push_utf8(out, block.as_str());
        Ok(())
    }

    fn write_header(out: &mut Vec<u8>) -> (r: Result<(), ParserError>) {
        proof {
            assert(out@ =~= old(out)@ + seq![]);
        }
        Ok(())
    }
}

// ---------------------------------------------------------------------------
// Reading back what was written
// ---------------------------------------------------------------------------

/// A record that the text block keeps intact: its description has no line break and does not
/// start or end with white space (which trimming the line would drop).
pub open spec fn txt_fits(r: RecordView) -> bool {
    &&& forall|i: int| 0 <= i < r.description.len() ==> #[trigger] r.description[i] != '\n'
    &&& r.description.len() > 0 ==> !is_ws(r.description[0]) && !is_ws(r.description.last())
}

/// The values of a record's fields as the block writes them, in key order.
pub open spec fn txt_values(r: RecordView) -> Seq<Seq<char>> {
    seq![
        decimal(r.id as nat),
        r.tx_type.spec_name(),
        decimal(r.from_user_id as nat),
        decimal(r.to_user_id as nat),
        decimal_signed(r.amount as int),
        decimal(r.timestamp as nat),
        r.status.spec_name(),
        r.description,
    ]
}

/// The line of field `k` with value `v`, without its line break.
pub open spec fn txt_line(k: int, v: Seq<char>) -> Seq<char> {
    txt_key(k) + seq![':', ' '] + v
}

proof fn lemma_txt_keys()
    ensures
        forall|k: int| 0 <= k < 8 ==> #[trigger] txt_key_index(txt_key(k)) == Some(k),
        forall|k: int, i: int|
            0 <= k < 8 && 0 <= i < txt_key(k).len() ==> #[trigger] txt_key(k)[i] != ':'
                && txt_key(k)[i] != '\n',
        forall|k: int| 0 <= k < 8 ==> #[trigger] txt_key(k).len() > 0,
        forall|k: int| 0 <= k < 8 ==> !is_ws(#[trigger] txt_key(k)[0]) && txt_key(k)[0] != '#',
        forall|k: int| 0 <= k < 8 ==> !is_ws(#[trigger] txt_key(k).last()),
{
    reveal_strlit("TX_ID");
    reveal_strlit("TX_TYPE");
    reveal_strlit("FROM_USER_ID");
    reveal_strlit("TO_USER_ID");
    reveal_strlit("AMOUNT");
    reveal_strlit("TIMESTAMP");
    reveal_strlit("STATUS");
    reveal_strlit("DESCRIPTION");
    assert("AMOUNT"@[0] != "STATUS"@[0]);
    assert forall|k: int| 0 <= k < 8 implies #[trigger] txt_key_index(txt_key(k)) == Some(k) by {
        assert forall|j: int| 0 <= j < k implies txt_key(j) != txt_key(k) by {
            if txt_key(j).len() == txt_key(k).len() {
                assert(j == 4 && k == 6);
                assert(txt_key(j)[0] != txt_key(k)[0]);
            }
        }
    }
}

proof fn lemma_txt_prefixes()
    ensures
        "TX_ID: "@ == txt_key(0) + seq![':', ' '],
        "TX_TYPE: "@ == txt_key(1) + seq![':', ' '],
        "FROM_USER_ID: "@ == txt_key(2) + seq![':', ' '],
        "TO_USER_ID: "@ == txt_key(3) + seq![':', ' '],
        "AMOUNT: "@ == txt_key(4) + seq![':', ' '],
        "TIMESTAMP: "@ == txt_key(5) + seq![':', ' '],
        "STATUS: "@ == txt_key(6) + seq![':', ' '],
        "DESCRIPTION: "@ == txt_key(7) + seq![':', ' '],
{
    reveal_strlit("TX_ID: ");
    reveal_strlit("TX_TYPE: ");
    reveal_strlit("FROM_USER_ID: ");
    reveal_strlit("TO_USER_ID: ");
    reveal_strlit("AMOUNT: ");
    reveal_strlit("TIMESTAMP: ");
    reveal_strlit("STATUS: ");
    reveal_strlit("DESCRIPTION: ");
    reveal_strlit("TX_ID");
    reveal_strlit("TX_TYPE");
    reveal_strlit("FROM_USER_ID");
    reveal_strlit("TO_USER_ID");
    reveal_strlit("AMOUNT");
    reveal_strlit("TIMESTAMP");
    reveal_strlit("STATUS");
    reveal_strlit("DESCRIPTION");
    assert("TX_ID: "@ =~= "TX_ID"@ + seq![':', ' ']);
    assert("TX_TYPE: "@ =~= "TX_TYPE"@ + seq![':', ' ']);
    assert("FROM_USER_ID: "@ =~= "FROM_USER_ID"@ + seq![':', ' ']);
    assert("TO_USER_ID: "@ =~= "TO_USER_ID"@ + seq![':', ' ']);
    assert("AMOUNT: "@ =~= "AMOUNT"@ + seq![':', ' ']);
    assert("TIMESTAMP: "@ =~= "TIMESTAMP"@ + seq![':', ' ']);
    assert("STATUS: "@ =~= "STATUS"@ + seq![':', ' ']);
    assert("DESCRIPTION: "@ =~= "DESCRIPTION"@ + seq![':', ' ']);
}

#[verifier::spinoff_prover]
#[verifier::rlimit(40)]
proof fn lemma_txt_block_lines(r: RecordView)
    ensures
        spec_txt_block(r) == txt_line(0, txt_values(r)[0]).push('\n') + txt_line(
            1,
            txt_values(r)[1],
        ).push('\n') + txt_line(2, txt_values(r)[2]).push('\n') + txt_line(
            3,
            txt_values(r)[3],
        ).push('\n') + txt_line(4, txt_values(r)[4]).push('\n') + txt_line(
            5,
            txt_values(r)[5],
        ).push('\n') + txt_line(6, txt_values(r)[6]).push('\n') + txt_line(
            7,
            txt_values(r)[7],
        ).push('\n') + seq!['\n'],
{
    lemma_txt_prefixes();
    assert(spec_txt_block(r) =~= txt_line(0, txt_values(r)[0]).push('\n') + txt_line(
        1,
        txt_values(r)[1],
    ).push('\n') + txt_line(2, txt_values(r)[2]).push('\n') + txt_line(
        3,
        txt_values(r)[3],
    ).push('\n') + txt_line(4, txt_values(r)[4]).push('\n') + txt_line(
        5,
        txt_values(r)[5],
    ).push('\n') + txt_line(6, txt_values(r)[6]).push('\n') + txt_line(
        7,
        txt_values(r)[7],
    ).push('\n') + seq!['\n']);
}

/// A value that trimming keeps: no line break, and no white space at either end.
pub open spec fn value_fits(v: Seq<char>) -> bool {
    &&& forall|i: int| 0 <= i < v.len() ==> #[trigger] v[i] != '\n'
    &&& v.len() > 0 ==> !is_ws(v[0]) && !is_ws(v.last())
}

/// Reading one `KEY: value` line sets that field's value and moves to the next line.
proof fn lemma_txt_scan_line(
    pre: Seq<u8>,
    k: int,
    v: Seq<char>,
    post: Seq<u8>,
    fields: Seq<Option<Seq<char>>>,
    any: bool,
)
    requires
        0 <= k < 8,
        value_fits(v),
    ensures
        ({
            let bytes = encode_utf8(txt_line(k, v).push('\n'));
            let data = pre + bytes + post;
            txt_scan(data, pre.len() as int, fields, any) == txt_scan(
                data,
                (pre.len() + bytes.len()) as int,
                fields.update(k, Some(v)),
                true,
            )
        }),
{
    lemma_txt_keys();
    let key = txt_key(k);
    let body = txt_line(k, v);
    let line = body.push('\n');
    let bytes = encode_utf8(line);
    let data = pre + bytes + post;
    assert forall|i: int| 0 <= i < body.len() implies body[i] != '\n' by {
        if i < key.len() {
            assert(body[i] == key[i]);
        } else if i >= key.len() + 2 {
            assert(body[i] == v[i - key.len() - 2]);
        }
    }
    lemma_read_encoded_line(pre, body, post);
    assert(bytes.len() > 0) by {
        vstd::utf8::encode_utf8_decode_utf8(line);
    }
    // The trimmed line.
    let t = if v.len() > 0 {
        body
    } else {
        key + seq![':']
    };
    assert(line[0] == key[0]);
    if v.len() > 0 {
        assert(line[body.len() - 1] == v.last());
        assert forall|j: int| body.len() <= j < line.len() implies is_ws(#[trigger] line[j]) by {
            assert(j == body.len());
        }
        lemma_trim_drop_end(line, body.len() as int);
        assert(line.subrange(0, body.len() as int) =~= t);
    } else {
        assert(body =~= key + seq![':', ' ']);
        assert(line[key.len() as int] == ':');
        assert forall|j: int| key.len() + 1 <= j < line.len() implies is_ws(#[trigger] line[j]) by {
            assert(j == key.len() + 1 || j == key.len() + 2);
        }
        lemma_trim_drop_end(line, key.len() as int + 1);
        assert(line.subrange(0, key.len() as int + 1) =~= t);
    }
    assert(t[0] == key[0]);
    // Split at the first colon: the key, then the value after one space.
    let rest = if v.len() > 0 {
        seq![' '] + v
    } else {
        Seq::<char>::empty()
    };
    assert(t =~= key + seq![':'] + rest);
    lemma_split_once_at(key, ':', rest);
    lemma_trim_noop(key);
    if v.len() > 0 {
        lemma_trim_start_of(rest, 1);
        assert(rest.subrange(1, rest.len() as int) =~= v);
        lemma_trim_end_of(v, v.len() as int);
        assert(v.subrange(0, v.len() as int) =~= v);
    } else {
        assert(trim(rest) =~= Seq::<char>::empty());
    }
    let p = pre.len() as int;
    let e = line_end(data, p);
    assert(p < data.len());
    assert(e == p + bytes.len());
    assert(data.subrange(p, e) == bytes);
    assert(valid_utf8(bytes));
    assert(decode_utf8(bytes) == line);
    assert(trim(line) == t);
    assert(t.len() > 0);
    assert(t[0] != '#');
    assert(split_once(t, ':') == Some((key, rest)));
    assert(trim(key) == key);
    assert(txt_key_index(key) == Some(k));
    assert(trim(rest) == v);
}

/// A `KEY: value` line, trimmed, is split at its first colon into its key and its value.
proof fn lemma_txt_line_parts(k: int, v: Seq<char>)
    requires
        0 <= k < 8,
        value_fits(v),
    ensures
        forall|i: int| 0 <= i < txt_line(k, v).len() ==> txt_line(k, v)[i] != '\n',
        ({
            let t = trim(txt_line(k, v));
            &&& t.len() > 0
            &&& t[0] != '#'
            &&& split_once(t, ':') matches Some((kk, vv)) && txt_key_index(trim(kk)) == Some(k)
                && trim(vv) == v
        }),
{
    lemma_txt_keys();
    let key = txt_key(k);
    let body = txt_line(k, v);
    assert forall|i: int| 0 <= i < body.len() implies body[i] != '\n' by {
        if i < key.len() {
            assert(body[i] == key[i]);
        } else if i >= key.len() + 2 {
            assert(body[i] == v[i - key.len() - 2]);
        }
    }
    let t = if v.len() > 0 {
        body
    } else {
        key + seq![':']
    };
    assert(body[0] == key[0]);
    if v.len() > 0 {
        assert(body.last() == v.last());
        lemma_trim_noop(body);
    } else {
        assert(body =~= key + seq![':', ' ']);
        assert(body[key.len() as int] == ':');
        assert forall|j: int| key.len() + 1 <= j < body.len() implies is_ws(#[trigger] body[j]) by {
            assert(j == key.len() + 1);
        }
        lemma_trim_drop_end(body, key.len() as int + 1);
        assert(body.subrange(0, key.len() as int + 1) =~= t);
    }
    assert(t[0] == key[0]);
    let rest = if v.len() > 0 {
        seq![' '] + v
    } else {
        Seq::<char>::empty()
    };
    assert(t =~= key + seq![':'] + rest);
    lemma_split_once_at(key, ':', rest);
    lemma_trim_noop(key);
    if v.len() > 0 {
        lemma_trim_start_of(rest, 1);
        assert(rest.subrange(1, rest.len() as int) =~= v);
        lemma_trim_end_of(v, v.len() as int);
        assert(v.subrange(0, v.len() as int) =~= v);
    } else {
        assert(trim(rest) =~= Seq::<char>::empty());
    }
    assert(trim(body) == t);
    assert(split_once(t, ':') == Some((key, rest)));
    assert(trim(key) == key);
    assert(txt_key_index(key) == Some(k));
    assert(trim(rest) == v);
}

/// A `KEY: value` line at the end of the input, without a line break, sets that field's value
/// and ends the block.
proof fn lemma_txt_scan_last_line(
    pre: Seq<u8>,
    k: int,
    v: Seq<char>,
    fields: Seq<Option<Seq<char>>>,
    any: bool,
)
    requires
        0 <= k < 8,
        value_fits(v),
    ensures
        ({
            let data = pre + encode_utf8(txt_line(k, v));
            txt_scan(data, pre.len() as int, fields, any) == TxtScan::Done(
                fields.update(k, Some(v)),
                true,
                data.len() as int,
            )
        }),
{
    let body = txt_line(k, v);
    let data = pre + encode_utf8(body);
    lemma_txt_line_parts(k, v);
    lemma_txt_keys();
    assert(body.len() > 0);
    lemma_read_last_line(pre, body);
    let p = pre.len() as int;
    assert(p < data.len());
    assert(txt_scan(data, data.len() as int, fields.update(k, Some(v)), true) == TxtScan::Done(
        fields.update(k, Some(v)),
        true,
        data.len() as int,
    ));
}

/// An empty line ends the block.
proof fn lemma_txt_scan_empty_line(
    pre: Seq<u8>,
    post: Seq<u8>,
    fields: Seq<Option<Seq<char>>>,
    any: bool,
)
    ensures
        ({
            let bytes = encode_utf8(seq!['\n']);
            let data = pre + bytes + post;
            txt_scan(data, pre.len() as int, fields, any) == TxtScan::Done(
                fields,
                any,
                (pre.len() + bytes.len()) as int,
            )
        }),
{
    let body = Seq::<char>::empty();
    assert(body.push('\n') =~= seq!['\n']);
    lemma_read_encoded_line(pre, body, post);
    assert(encode_utf8(seq!['\n']).len() > 0) by {
        vstd::utf8::encode_utf8_decode_utf8(seq!['\n']);
    }
    assert(trim_start(seq!['\n']) == trim_start(seq!['\n'].drop_first()));
    assert(seq!['\n'].drop_first() =~= Seq::<char>::empty());
}

/// The lines of a record's block from field `j` on, then the empty line.
pub open spec fn txt_lines_from(r: RecordView, j: int) -> Seq<char>
    decreases 8 - j,
{
    if j >= 8 {
        seq!['\n']
    } else {
        txt_line(j, txt_values(r)[j]).push('\n') + txt_lines_from(r, j + 1)
    }
}

/// The values found after reading the first `j` lines of a record's block.
pub open spec fn txt_fields_upto(r: RecordView, j: int) -> Seq<Option<Seq<char>>>
    decreases j,
{
    if j <= 0 {
        no_fields()
    } else {
        txt_fields_upto(r, j - 1).update(j - 1, Some(txt_values(r)[j - 1]))
    }
}

proof fn lemma_txt_values_fit(r: RecordView)
    requires
        txt_fits(r),
    ensures
        forall|k: int| 0 <= k < 8 ==> value_fits(#[trigger] txt_values(r)[k]),
{
    reveal_strlit("DEPOSIT");
    reveal_strlit("TRANSFER");
    reveal_strlit("WITHDRAWAL");
    reveal_strlit("SUCCESS");
    reveal_strlit("FAILURE");
    reveal_strlit("PENDING");
    lemma_decimal_no(r.id as nat, '\n');
    lemma_decimal_no(r.from_user_id as nat, '\n');
    lemma_decimal_no(r.to_user_id as nat, '\n');
    lemma_decimal_no(r.timestamp as nat, '\n');
    lemma_decimal_signed_no(r.amount as int, '\n');
    assert(decimal(r.id as nat).last() == decimal(r.id as nat)[decimal(r.id as nat).len() - 1]);
}

proof fn lemma_txt_scan_lines(r: RecordView, j: int, pre: Seq<u8>, post: Seq<u8>, any: bool)
    requires
        0 <= j <= 8,
        forall|k: int| 0 <= k < 8 ==> value_fits(#[trigger] txt_values(r)[k]),
    ensures
        ({
            let bytes = encode_utf8(txt_lines_from(r, j));
            let data = pre + bytes + post;
            txt_scan(data, pre.len() as int, txt_fields_upto(r, j), any) == TxtScan::Done(
                txt_fields_upto(r, 8),
                if j < 8 {
                    true
                } else {
                    any
                },
                (pre.len() + bytes.len()) as int,
            )
        }),
    decreases 8 - j,
{
    if j == 8 {
        lemma_txt_scan_empty_line(pre, post, txt_fields_upto(r, 8), any);
    } else {
        let line = txt_line(j, txt_values(r)[j]).push('\n');
        let rest = txt_lines_from(r, j + 1);
        lemma_encode_utf8_concat(line, rest);
        let bl = encode_utf8(line);
        let br = encode_utf8(rest);
        let data = pre + encode_utf8(txt_lines_from(r, j)) + post;
        assert(data =~= pre + bl + (br + post));
        lemma_txt_scan_line(pre, j, txt_values(r)[j], br + post, txt_fields_upto(r, j), any);
        lemma_txt_scan_lines(r, j + 1, pre + bl, post, true);
        assert((pre + bl) + br + post =~= data);
    }
}

/// Reading the bytes of a record's block gives the record and moves past them, whatever comes
/// before or after.
pub proof fn lemma_txt_next_reads(r: RecordView, pre: Seq<u8>, post: Seq<u8>)
    requires
        txt_fits(r),
    ensures
        ({
            let bytes = encode_utf8(spec_txt_block(r));
            let data = pre + bytes + post;
            spec_txt_next(ParserTxtView { data, pos: pre.len() as int }) == (
                Some(Ok::<RecordView, ParserErrorView>(r)),
                ParserTxtView { data, pos: (pre.len() + bytes.len()) as int },
            )
        }),
{
    lemma_txt_values_fit(r);
    lemma_txt_block_lines(r);
    reveal_with_fuel(txt_lines_from, 10);
    assert(spec_txt_block(r) =~= txt_lines_from(r, 0));
    lemma_txt_scan_lines(r, 0, pre, post, false);
    reveal_with_fuel(txt_fields_upto, 9);
    let f = txt_fields_upto(r, 8);
    let v = txt_values(r);
    assert(f =~= seq![Some(v[0]), Some(v[1]), Some(v[2]), Some(v[3]), Some(v[4]), Some(v[5]), Some(v[6]), Some(v[7])]);
    lemma_parse_u64_decimal(r.id);
    lemma_parse_u64_decimal(r.from_user_id);
    lemma_parse_u64_decimal(r.to_user_id);
    lemma_parse_u64_decimal(r.timestamp);
    lemma_parse_i64_decimal(r.amount);
    lemma_tx_type_name_roundtrip(r.tx_type);
    lemma_tx_status_name_roundtrip(r.status);
}

/// A block of `KEY: value` lines for a record's fields in the order `ks` (field numbers, in
/// key order), then the empty line that ends it.
pub open spec fn txt_lines_in(r: RecordView, ks: Seq<int>) -> Seq<char>
    decreases ks.len(),
{
    if ks.len() == 0 {
        seq!['\n']
    } else {
        txt_line(ks[0], txt_values(r)[ks[0]]).push('\n') + txt_lines_in(r, ks.drop_first())
    }
}

/// The values found after reading, from `fields`, the lines of a record's fields in the
/// order `ks`.
pub open spec fn txt_fields_after(
    fields: Seq<Option<Seq<char>>>,
    r: RecordView,
    ks: Seq<int>,
) -> Seq<Option<Seq<char>>>
    decreases ks.len(),
{
    if ks.len() == 0 {
        fields
    } else {
        txt_fields_after(fields.update(ks[0], Some(txt_values(r)[ks[0]])), r, ks.drop_first())
    }
}

proof fn lemma_txt_scan_keys(
    r: RecordView,
    ks: Seq<int>,
    pre: Seq<u8>,
    post: Seq<u8>,
    fields: Seq<Option<Seq<char>>>,
    any: bool,
)
    requires
        forall|j: int| 0 <= j < ks.len() ==> 0 <= #[trigger] ks[j] < 8,
        forall|k: int| 0 <= k < 8 ==> value_fits(#[trigger] txt_values(r)[k]),
    ensures
        ({
            let bytes = encode_utf8(txt_lines_in(r, ks));
            let data = pre + bytes + post;
            txt_scan(data, pre.len() as int, fields, any) == TxtScan::Done(
                txt_fields_after(fields, r, ks),
                any || ks.len() > 0,
                (pre.len() + bytes.len()) as int,
            )
        }),
    decreases ks.len(),
{
    if ks.len() == 0 {
        lemma_txt_scan_empty_line(pre, post, fields, any);
    } else {
        let k = ks[0];
        let line = txt_line(k, txt_values(r)[k]).push('\n');
        let rest = txt_lines_in(r, ks.drop_first());
        lemma_encode_utf8_concat(line, rest);
        let bl = encode_utf8(line);
        let br = encode_utf8(rest);
        let data = pre + encode_utf8(txt_lines_in(r, ks)) + post;
        assert(data =~= pre + bl + (br + post));
        lemma_txt_scan_line(pre, k, txt_values(r)[k], br + post, fields, any);
        assert forall|j: int| 0 <= j < ks.drop_first().len() implies 0 <= #[trigger] ks.drop_first()[j]
            < 8 by {
            assert(ks.drop_first()[j] == ks[j + 1]);
        }
        lemma_txt_scan_keys(
            r,
            ks.drop_first(),
            pre + bl,
            post,
            fields.update(k, Some(txt_values(r)[k])),
            true,
        );
        assert((pre + bl) + br + post =~= data);
    }
}

proof fn lemma_txt_fields_after(fields: Seq<Option<Seq<char>>>, r: RecordView, ks: Seq<int>)
    requires
        fields.len() == 8,
        forall|j: int| 0 <= j < ks.len() ==> 0 <= #[trigger] ks[j] < 8,
    ensures
        txt_fields_after(fields, r, ks).len() == 8,
        forall|k: int|
            0 <= k < 8 ==> #[trigger] txt_fields_after(fields, r, ks)[k] == if ks.contains(k) {
                Some(txt_values(r)[k])
            } else {
                fields[k]
            },
    decreases ks.len(),
{
    if ks.len() > 0 {
        let t = ks.drop_first();
        assert forall|j: int| 0 <= j < t.len() implies 0 <= #[trigger] t[j] < 8 by {
            assert(t[j] == ks[j + 1]);
        }
        lemma_txt_fields_after(fields.update(ks[0], Some(txt_values(r)[ks[0]])), r, t);
        assert forall|k: int| 0 <= k < 8 implies ks.contains(k) == (k == ks[0] || t.contains(k)) by {
            if ks.contains(k) {
                let j = choose|j: int| 0 <= j < ks.len() && ks[j] == k;
                if j > 0 {
                    assert(t[j - 1] == k);
                }
            }
            if t.contains(k) {
                let j = choose|j: int| 0 <= j < t.len() && t[j] == k;
                assert(ks[j + 1] == k);
            }
            if k == ks[0] {
                assert(ks[0] == k);
            }
        }
    }
}

/// The lines of a block may come in any order, and may repeat: a block holding, in any order,
/// the line of each of a record's fields reads as the record and moves past the block,
/// whatever comes before or after.
pub proof fn lemma_txt_any_key_order(r: RecordView, ks: Seq<int>, pre: Seq<u8>, post: Seq<u8>)
    requires
        txt_fits(r),
        forall|j: int| 0 <= j < ks.len() ==> 0 <= #[trigger] ks[j] < 8,
        forall|k: int| 0 <= k < 8 ==> #[trigger] ks.contains(k),
    ensures
        ({
            let bytes = encode_utf8(txt_lines_in(r, ks));
            let data = pre + bytes + post;
            spec_txt_next(ParserTxtView { data, pos: pre.len() as int }) == (
                Some(Ok::<RecordView, ParserErrorView>(r)),
                ParserTxtView { data, pos: (pre.len() + bytes.len()) as int },
            )
        }),
{
    lemma_txt_values_fit(r);
    lemma_txt_scan_keys(r, ks, pre, post, no_fields(), false);
    assert(ks.len() > 0) by {
        assert(ks.contains(0));
    }
    lemma_txt_fields_after(no_fields(), r, ks);
    let f = txt_fields_after(no_fields(), r, ks);
    let v = txt_values(r);
    assert(f =~= seq![Some(v[0]), Some(v[1]), Some(v[2]), Some(v[3]), Some(v[4]), Some(v[5]), Some(v[6]), Some(v[7])]) by {
        assert forall|k: int| 0 <= k < 8 implies f[k] == Some(v[k]) by {
            assert(ks.contains(k));
        }
    }
    lemma_parse_u64_decimal(r.id);
    lemma_parse_u64_decimal(r.from_user_id);
    lemma_parse_u64_decimal(r.to_user_id);
    lemma_parse_u64_decimal(r.timestamp);
    lemma_parse_i64_decimal(r.amount);
    lemma_tx_type_name_roundtrip(r.tx_type);
    lemma_tx_status_name_roundtrip(r.status);
}

proof fn lemma_txt_next_same(data: Seq<u8>, pos: int, q: int)
    requires
        0 <= pos < q,
        txt_scan(data, pos, no_fields(), false) == txt_scan(data, q, no_fields(), false),
    ensures
        spec_txt_next(ParserTxtView { data, pos }) == spec_txt_next(ParserTxtView { data, pos: q }),
{
    lemma_txt_scan_progress(data, q, no_fields(), false);
}

/// A line that reading passes over between records: empty once trimmed, or a comment.
pub open spec fn txt_gap_line(l: Seq<char>) -> bool {
    &&& forall|i: int| 0 <= i < l.len() ==> #[trigger] l[i] != '\n'
    &&& trim(l).len() == 0 || trim(l)[0] == '#'
}

proof fn lemma_txt_gap_line(pre: Seq<u8>, l: Seq<char>, post: Seq<u8>)
    requires
        txt_gap_line(l),
        post.len() > 0,
    ensures
        ({
            let bytes = encode_utf8(l.push('\n'));
            let data = pre + bytes + post;
            spec_txt_next(ParserTxtView { data, pos: pre.len() as int }) == spec_txt_next(
                ParserTxtView { data, pos: (pre.len() + bytes.len()) as int },
            )
        }),
{
    let line = l.push('\n');
    let bytes = encode_utf8(line);
    let data = pre + bytes + post;
    lemma_read_encoded_line(pre, l, post);
    lemma_trim_push_ws(l, '\n');
    assert(bytes.len() > 0) by {
        vstd::utf8::encode_utf8_decode_utf8(line);
    }
    let p = pre.len() as int;
    let e = p + bytes.len();
    assert(p < data.len());
    assert(data.subrange(p, line_end(data, p)) == bytes);
    assert(trim(decode_utf8(bytes)) == trim(l));
    if trim(l).len() == 0 {
        assert(txt_scan(data, p, no_fields(), false) == TxtScan::Done(no_fields(), false, e));
        assert(e < data.len());
    } else {
        assert(txt_scan(data, p, no_fields(), false) == txt_scan(data, e, no_fields(), false));
        lemma_txt_next_same(data, p, e);
    }
}

/// The lines of a record's block from field `j` on, the last without its line break and with
/// no empty line after it: the block as it may end an input.
pub open spec fn txt_open_from(r: RecordView, j: int) -> Seq<char>
    decreases 7 - j,
{
    if j >= 7 {
        txt_line(7, txt_values(r)[7])
    } else {
        txt_line(j, txt_values(r)[j]).push('\n') + txt_open_from(r, j + 1)
    }
}

proof fn lemma_txt_open_from(r: RecordView, j: int)
    requires
        0 <= j <= 7,
    ensures
        txt_lines_from(r, j) == txt_open_from(r, j) + seq!['\n', '\n'],
    decreases 7 - j,
{
    if j == 7 {
        assert(txt_lines_from(r, 8) == seq!['\n']);
        assert(txt_lines_from(r, 7) =~= txt_open_from(r, 7) + seq!['\n', '\n']);
    } else {
        lemma_txt_open_from(r, j + 1);
        assert(txt_lines_from(r, j) =~= txt_open_from(r, j) + seq!['\n', '\n']);
    }
}

proof fn lemma_txt_scan_open_lines(r: RecordView, j: int, pre: Seq<u8>, any: bool)
    requires
        0 <= j <= 7,
        forall|k: int| 0 <= k < 8 ==> value_fits(#[trigger] txt_values(r)[k]),
    ensures
        ({
            let data = pre + encode_utf8(txt_open_from(r, j));
            txt_scan(data, pre.len() as int, txt_fields_upto(r, j), any) == TxtScan::Done(
                txt_fields_upto(r, 8),
                true,
                data.len() as int,
            )
        }),
    decreases 7 - j,
{
    if j == 7 {
        lemma_txt_scan_last_line(pre, 7, txt_values(r)[7], txt_fields_upto(r, 7), any);
    } else {
        let line = txt_line(j, txt_values(r)[j]).push('\n');
        let rest = txt_open_from(r, j + 1);
        lemma_encode_utf8_concat(line, rest);
        let bl = encode_utf8(line);
        let br = encode_utf8(rest);
        let data = pre + encode_utf8(txt_open_from(r, j));
        assert(data =~= pre + bl + br);
        lemma_txt_scan_line(pre, j, txt_values(r)[j], br, txt_fields_upto(r, j), any);
        lemma_txt_scan_open_lines(r, j + 1, pre + bl, true);
    }
}

/// A record's block at the end of the input, without its last line break and the empty line
/// after it, reads as the record and moves to the end, whatever comes before.
pub proof fn lemma_txt_last_block_reads(r: RecordView, pre: Seq<u8>)
    requires
        txt_fits(r),
    ensures
        ({
            let data = pre + encode_utf8(txt_open_from(r, 0));
            spec_txt_next(ParserTxtView { data, pos: pre.len() as int }) == (
                Some(Ok::<RecordView, ParserErrorView>(r)),
                ParserTxtView { data, pos: data.len() as int },
            )
        }),
{
    lemma_txt_values_fit(r);
    lemma_txt_scan_open_lines(r, 0, pre, false);
    reveal_with_fuel(txt_fields_upto, 9);
    let f = txt_fields_upto(r, 8);
    let v = txt_values(r);
    assert(f =~= seq![Some(v[0]), Some(v[1]), Some(v[2]), Some(v[3]), Some(v[4]), Some(v[5]), Some(v[6]), Some(v[7])]);
    lemma_parse_u64_decimal(r.id);
    lemma_parse_u64_decimal(r.from_user_id);
    lemma_parse_u64_decimal(r.to_user_id);
    lemma_parse_u64_decimal(r.timestamp);
    lemma_parse_i64_decimal(r.amount);
    lemma_tx_type_name_roundtrip(r.tx_type);
    lemma_tx_status_name_roundtrip(r.status);
}

/// A record's block is reached past any empty and comment lines before it: reading from the
/// start of those lines gives the record and moves past its block, whatever comes before or
/// after.
pub proof fn lemma_txt_reaches_record(
    r: RecordView,
    gap: Seq<Seq<char>>,
    pre: Seq<u8>,
    post: Seq<u8>,
)
    requires
        txt_fits(r),
        forall|i: int| 0 <= i < gap.len() ==> txt_gap_line(#[trigger] gap[i]),
    ensures
        ({
            let bytes = encode_utf8(lines_text(gap) + spec_txt_block(r));
            let data = pre + bytes + post;
            spec_txt_next(ParserTxtView { data, pos: pre.len() as int }) == (
                Some(Ok::<RecordView, ParserErrorView>(r)),
                ParserTxtView { data, pos: (pre.len() + bytes.len()) as int },
            )
        }),
    decreases gap.len(),
{
    let block = spec_txt_block(r);
    if gap.len() == 0 {
        assert(lines_text(gap) + block =~= block);
        lemma_txt_next_reads(r, pre, post);
    } else {
        let l = gap[0];
        let rest = gap.drop_first();
        let line = l.push('\n');
        let tail = lines_text(rest) + block;
        lemma_encode_utf8_concat(line, tail);
        assert(lines_text(gap) + block =~= line + tail);
        let lb = encode_utf8(line);
        let rb = encode_utf8(tail);
        assert(rb.len() > 0) by {
            vstd::utf8::encode_utf8_decode_utf8(tail);
            assert(tail.len() > 0);
        }
        let data = pre + encode_utf8(lines_text(gap) + block) + post;
        assert(data =~= pre + lb + (rb + post));
        lemma_txt_gap_line(pre, l, rb + post);
        assert forall|i: int| 0 <= i < rest.len() implies txt_gap_line(#[trigger] rest[i]) by {
            assert(rest[i] == gap[i + 1]);
        }
        lemma_txt_reaches_record(r, rest, pre + lb, post);
        assert((pre + lb) + rb + post =~= data);
    }
}

/// Reading, from the start of a block, the blocks of a list of records gives back the
/// records, with no error, as long as each record fits its block.
pub proof fn lemma_txt_read_back(rs: Seq<RecordView>, pre: Seq<u8>)
    requires
        forall|i: int| 0 <= i < rs.len() ==> txt_fits(#[trigger] rs[i]),
    ensures
        parse_all::<ParserTxt>(
            ParserTxtView { data: pre + encode_all::<ParserTxt>(rs), pos: pre.len() as int },
        ) == (rs, None::<ParserErrorView>),
    decreases rs.len(),
{
    let data = pre + encode_all::<ParserTxt>(rs);
    if rs.len() == 0 {
        assert(data =~= pre);
        assert(txt_scan(data, pre.len() as int, no_fields(), false) == TxtScan::Done(
            no_fields(),
            false,
            pre.len() as int,
        ));
    } else {
        let r = rs[0];
        let rest = rs.drop_first();
        let bytes = encode_utf8(spec_txt_block(r));
        let after = encode_all::<ParserTxt>(rest);
        assert(data =~= pre + bytes + after);
        lemma_txt_next_reads(r, pre, after);
        assert forall|i: int| 0 <= i < rest.len() implies txt_fits(#[trigger] rest[i]) by {
            assert(rest[i] == rs[i + 1]);
        }
        lemma_txt_read_back(rest, pre + bytes);
        assert((pre + bytes) + after =~= data);
        assert(seq![r] + rest =~= rs);
    }
}

#[verifier::spinoff_prover]
#[verifier::rlimit(40)]
proof fn lemma_txt_read_back_open(rs: Seq<RecordView>, pre: Seq<u8>)
    requires
        rs.len() > 0,
        forall|i: int| 0 <= i < rs.len() ==> txt_fits(#[trigger] rs[i]),
    ensures
        parse_all::<ParserTxt>(
            ParserTxtView {
                data: pre + encode_all::<ParserTxt>(rs.drop_last()) + encode_utf8(
                    txt_open_from(rs.last(), 0),
                ),
                pos: pre.len() as int,
            },
        ) == (rs, None::<ParserErrorView>),
    decreases rs.len(),
{
    let last = encode_utf8(txt_open_from(rs.last(), 0));
    let data = pre + encode_all::<ParserTxt>(rs.drop_last()) + last;
    assert(txt_fits(rs[rs.len() - 1]));
    if rs.len() == 1 {
        assert(rs.drop_last() =~= Seq::<RecordView>::empty());
        assert(encode_all::<ParserTxt>(rs.drop_last()) =~= Seq::<u8>::empty());
        assert(data =~= pre + last);
        lemma_txt_last_block_reads(rs.last(), pre);
        let s2 = ParserTxtView { data, pos: data.len() as int };
        assert(txt_scan(data, data.len() as int, no_fields(), false) == TxtScan::Done(
            no_fields(),
            false,
            data.len() as int,
        ));
        assert(parse_all::<ParserTxt>(s2) == (Seq::<RecordView>::empty(), None::<ParserErrorView>));
        assert(last.len() > 0) by {
            lemma_txt_open_from(rs.last(), 0);
            vstd::utf8::encode_utf8_decode_utf8(txt_open_from(rs.last(), 0));
            assert(txt_open_from(rs.last(), 0).len() > 0) by {
                reveal_with_fuel(txt_open_from, 2);
            }
        }
        assert(seq![rs.last()] + Seq::<RecordView>::empty() =~= rs);
    } else {
        let r = rs[0];
        let rest = rs.drop_first();
        let b0 = encode_utf8(spec_txt_block(r));
        assert(rs.drop_last().drop_first() =~= rest.drop_last());
        assert(rs.drop_last()[0] == r);
        let after = encode_all::<ParserTxt>(rest.drop_last()) + last;
        assert(encode_all::<ParserTxt>(rs.drop_last()) == b0 + encode_all::<ParserTxt>(
            rest.drop_last(),
        ));
        assert(data =~= pre + b0 + after);
        lemma_txt_next_reads(r, pre, after);
        assert forall|i: int| 0 <= i < rest.len() implies txt_fits(#[trigger] rest[i]) by {
            assert(rest[i] == rs[i + 1]);
        }
        assert(rest.last() == rs.last());
        lemma_txt_read_back_open(rest, pre + b0);
        assert((pre + b0) + encode_all::<ParserTxt>(rest.drop_last()) + last =~= data);
        assert(seq![r] + rest =~= rs);
    }
}

/// The last block need not end with a line break or an empty line: an input made of a first
/// line (skipped by `read_from`), the blocks of a list of records, and last the block of the
/// last record without its final line break and the empty line after it, reads as exactly
/// those records, with no error, as long as the first line has no line break and each record
/// fits its block.
pub proof fn lemma_txt_unterminated_reads_back(title: Seq<char>, rs: Seq<RecordView>)
    requires
        forall|i: int| 0 <= i < title.len() ==> title[i] != '\n',
        rs.len() > 0,
        forall|i: int| 0 <= i < rs.len() ==> txt_fits(#[trigger] rs[i]),
    ensures
        spec_txt_block(rs.last()) == txt_open_from(rs.last(), 0) + seq!['\n', '\n'],
        ({
            let data = encode_utf8(title.push('\n')) + encode_all::<ParserTxt>(rs.drop_last())
                + encode_utf8(txt_open_from(rs.last(), 0));
            &&& ParserTxt::spec_read_from(data) matches Ok(s)
            &&& parse_all::<ParserTxt>(s) == (rs, None::<ParserErrorView>)
        }),
{
    let r = rs.last();
    lemma_txt_block_lines(r);
    reveal_with_fuel(txt_lines_from, 10);
    assert(spec_txt_block(r) =~= txt_lines_from(r, 0));
    lemma_txt_open_from(r, 0);
    let first = encode_utf8(title.push('\n'));
    let tail = encode_all::<ParserTxt>(rs.drop_last()) + encode_utf8(txt_open_from(r, 0));
    let data = first + tail;
    lemma_read_encoded_line(Seq::<u8>::empty(), title, tail);
    assert(Seq::<u8>::empty() + first + tail =~= data);
    assert(first.len() > 0) by {
        vstd::utf8::encode_utf8_decode_utf8(title.push('\n'));
    }
    lemma_txt_read_back_open(rs, first);
    assert(first + encode_all::<ParserTxt>(rs.drop_last()) + encode_utf8(txt_open_from(r, 0))
        =~= data);
}

/// Reading an input made of a first line (skipped by `read_from`) and then the blocks that
/// `write_record` writes for a list of records gives back the records, with no error, as long
/// as the first line has no line break and each record fits its block.
pub proof fn lemma_txt_written_reads_back(title: Seq<char>, rs: Seq<RecordView>)
    requires
        forall|i: int| 0 <= i < title.len() ==> title[i] != '\n',
        forall|i: int| 0 <= i < rs.len() ==> txt_fits(#[trigger] rs[i]),
    ensures
        ({
            let data = encode_utf8(title.push('\n')) + encode_all::<ParserTxt>(rs);
            &&& ParserTxt::spec_read_from(data) matches Ok(s)
            &&& parse_all::<ParserTxt>(s) == (rs, None::<ParserErrorView>)
        }),
{
    let first = encode_utf8(title.push('\n'));
    let data = first + encode_all::<ParserTxt>(rs);
    lemma_read_encoded_line(Seq::<u8>::empty(), title, encode_all::<ParserTxt>(rs));
    assert(Seq::<u8>::empty() + first + encode_all::<ParserTxt>(rs) =~= data);
    assert(first.len() > 0) by {
        vstd::utf8::encode_utf8_decode_utf8(title.push('\n'));
    }
    lemma_txt_read_back(rs, first);
}

} // verus!
