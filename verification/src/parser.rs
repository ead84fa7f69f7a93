//! A parser of any of the three formats, chosen by name, and what can be done with one:
//! converting its records to a format, and comparing its records with another's.
use vstd::prelude::*;

use crate::bin_format::{ParserBin, ParserBinView};
use crate::csv_format::{ParserCsv, ParserCsvView};
use crate::errors::{ParserError, ParserErrorView};
use crate::record::{Record, RecordView};
use crate::text::{chars_of, range_eq};
use crate::txt_format::{ParserTxt, ParserTxtView};
use crate::types::{convert_to, encode_all, item_view, parse_all, parse_all_end, Parser};
use crate::bin_format::{bin_fits, lemma_bin_read_back};
use crate::csv_format::{csv_fits, lemma_csv_written_reads_back};
use crate::txt_format::{lemma_txt_written_reads_back, txt_fits};
use vstd::utf8::encode_utf8;

verus! {

/// The three formats.
#[derive(Debug, PartialEq, Eq, Structural, Clone, Copy)]
pub enum FormatKind {
    Csv,
    Txt,
    Bin,
}

/// The format a name stands for: `csv`, `txt` or `bin`, exactly.
pub open spec fn spec_format(name: Seq<char>) -> Option<FormatKind> {
    if name == "csv"@ {
        Some(FormatKind::Csv)
    } else if name == "txt"@ {
        Some(FormatKind::Txt)
    } else if name == "bin"@ {
        Some(FormatKind::Bin)
    } else {
        None
    }
}

/// The format that `name` stands for, if any.
pub fn format_kind(name: &str) -> (r: Option<FormatKind>)
    ensures
        r == spec_format(name@),
{
    let v = chars_of(name);
    let n = v.len();
    proof {
        assert(v@.subrange(0, n as int) =~= v@);
    }
    if range_eq(&v, 0, n, &chars_of("csv")) {
        Some(FormatKind::Csv)
    } else if range_eq(&v, 0, n, &chars_of("txt")) {
        Some(FormatKind::Txt)
    } else if range_eq(&v, 0, n, &chars_of("bin")) {
        Some(FormatKind::Bin)
    } else {
        None
    }
}

/// The bytes that format `k` writes for the records `rs`: its header, then each record.
pub open spec fn spec_output(k: FormatKind, rs: Seq<RecordView>) -> Seq<u8> {
    match k {
        FormatKind::Csv => ParserCsv::spec_header() + encode_all::<ParserCsv>(rs),
        FormatKind::Txt => ParserTxt::spec_header() + encode_all::<ParserTxt>(rs),
        FormatKind::Bin => ParserBin::spec_header() + encode_all::<ParserBin>(rs),
    }
}

/// A parser of one of the three formats.
pub enum ParserByType {
    /// A parser of CSV.
    Csv(ParserCsv),
    /// A parser of the text format.
    Txt(ParserTxt),
    /// A parser of the binary format.
    Bin(ParserBin),
}

/// The state of a parser of one of the three formats.
pub enum ParserByTypeView {
    Csv(ParserCsvView),
    Txt(ParserTxtView),
    Bin(ParserBinView),
}

impl View for ParserByType {
    type V = ParserByTypeView;

    open spec fn view(&self) -> ParserByTypeView {
        match self {
            ParserByType::Csv(p) => ParserByTypeView::Csv(p@),
            ParserByType::Txt(p) => ParserByTypeView::Txt(p@),
            ParserByType::Bin(p) => ParserByTypeView::Bin(p@),
        }
    }
}

/// The state in which a parser of format `k` is left after reading what comes before the
/// first record of `data`, or its error.
pub open spec fn spec_open(k: FormatKind, data: Seq<u8>) -> Result<
    ParserByTypeView,
    ParserErrorView,
> {
    match k {
        FormatKind::Csv => match ParserCsv::spec_read_from(data) {
            Ok(v) => Ok(ParserByTypeView::Csv(v)),
            Err(e) => Err(e),
        },
        FormatKind::Txt => match ParserTxt::spec_read_from(data) {
            Ok(v) => Ok(ParserByTypeView::Txt(v)),
            Err(e) => Err(e),
        },
        FormatKind::Bin => match ParserBin::spec_read_from(data) {
            Ok(v) => Ok(ParserByTypeView::Bin(v)),
            Err(e) => Err(e),
        },
    }
}

/// What the next call of `next` returns, and the state after it.
pub open spec fn spec_by_type_next(s: ParserByTypeView) -> (
    Option<Result<RecordView, ParserErrorView>>,
    ParserByTypeView,
) {
    match s {
        ParserByTypeView::Csv(v) => {
            let (item, v2) = ParserCsv::spec_next(v);
            (item, ParserByTypeView::Csv(v2))
        },
        ParserByTypeView::Txt(v) => {
            let (item, v2) = ParserTxt::spec_next(v);
            (item, ParserByTypeView::Txt(v2))
        },
        ParserByTypeView::Bin(v) => {
            let (item, v2) = ParserBin::spec_next(v);
            (item, ParserByTypeView::Bin(v2))
        },
    }
}

/// How many input bytes are left to read.
pub open spec fn spec_by_type_remaining(s: ParserByTypeView) -> nat {
    match s {
        ParserByTypeView::Csv(v) => ParserCsv::spec_remaining(v),
        ParserByTypeView::Txt(v) => ParserTxt::spec_remaining(v),
        ParserByTypeView::Bin(v) => ParserBin::spec_remaining(v),
    }
}

/// The records that a parser in state `s` yields, up to its end or first error, and that
/// error.
pub open spec fn spec_by_type_records(s: ParserByTypeView) -> (
    Seq<RecordView>,
    Option<ParserErrorView>,
) {
    match s {
        ParserByTypeView::Csv(v) => parse_all::<ParserCsv>(v),
        ParserByTypeView::Txt(v) => parse_all::<ParserTxt>(v),
        ParserByTypeView::Bin(v) => parse_all::<ParserBin>(v),
    }
}

/// The state after yielding all that `spec_by_type_records` lists.
pub open spec fn spec_by_type_end(s: ParserByTypeView) -> ParserByTypeView {
    match s {
        ParserByTypeView::Csv(v) => ParserByTypeView::Csv(parse_all_end::<ParserCsv>(v)),
        ParserByTypeView::Txt(v) => ParserByTypeView::Txt(parse_all_end::<ParserTxt>(v)),
        ParserByTypeView::Bin(v) => ParserByTypeView::Bin(parse_all_end::<ParserBin>(v)),
    }
}

/// How comparing the records of two parsers ended.
#[derive(Debug)]
pub enum Comparison {
    /// Both hold the same records, this many.
    Identical(usize),
    /// One holds more records than the other.
    DifferentLength,
    /// The records at this position (counted from 1) differ: the first parser's, the second's.
    DifferentRecord(usize, Record, Record),
    /// A parser failed.
    Failed(ParserError),
}

/// The value of a [`Comparison`].
pub enum ComparisonView {
    Identical(nat),
    DifferentLength,
    DifferentRecord(nat, RecordView, RecordView),
    Failed(ParserErrorView),
}

impl View for Comparison {
    type V = ComparisonView;

    open spec fn view(&self) -> ComparisonView {
        match self {
            Comparison::Identical(n) => ComparisonView::Identical(*n as nat),
            Comparison::DifferentLength => ComparisonView::DifferentLength,
            Comparison::DifferentRecord(n, a, b) => ComparisonView::DifferentRecord(
                *n as nat,
                a@,
                b@,
            ),
            Comparison::Failed(e) => ComparisonView::Failed(e@),
        }
    }
}

/// Comparing the records of two parsers, `seen` pairs having matched already: both read one
/// record at a time; both ending together means they are identical; one ending first means they
/// differ in length; an error of the first, else of the second, ends the comparison; two
/// different records end it at their position.
pub open spec fn spec_compare(a: ParserByTypeView, b: ParserByTypeView, seen: nat) -> ComparisonView
    decreases spec_by_type_remaining(a) + spec_by_type_remaining(b),
{
    let (i1, a2) = spec_by_type_next(a);
    let (i2, b2) = spec_by_type_next(b);
    match (i1, i2) {
        (None, None) => ComparisonView::Identical(seen),
        (Some(Ok(_)), None) => ComparisonView::DifferentLength,
        (None, Some(Ok(_))) => ComparisonView::DifferentLength,
        (Some(Err(e)), _) => ComparisonView::Failed(e),
        (_, Some(Err(e))) => ComparisonView::Failed(e),
        (Some(Ok(r1)), Some(Ok(r2))) => if r1 != r2 {
            ComparisonView::DifferentRecord(seen + 1, r1, r2)
        } else if spec_by_type_remaining(a2) + spec_by_type_remaining(b2)
            < spec_by_type_remaining(a) + spec_by_type_remaining(b) {
            spec_compare(a2, b2, seen + 1)
        } else {
            ComparisonView::Identical(seen + 1)
        },
    }
}

proof fn lemma_by_type_progress(s: ParserByTypeView)
    ensures
        spec_by_type_next(s).0 is Some ==> spec_by_type_remaining(spec_by_type_next(s).1)
            < spec_by_type_remaining(s),
{
    match s {
        ParserByTypeView::Csv(v) => ParserCsv::lemma_next_progress(v),
        ParserByTypeView::Txt(v) => ParserTxt::lemma_next_progress(v),
        ParserByTypeView::Bin(v) => ParserBin::lemma_next_progress(v),
    }
}

impl ParserByType {
    /// A parser of `data` in the format named `format` (`csv`, `txt` or `bin`), after reading
    /// what comes before the first record; an unknown name is refused with `InvalidFormat`.
    pub fn from_format(format: &str, data: Vec<u8>) -> (r: Result<Self, ParserError>)
        ensures
            match spec_format(format@) {
                None => r matches Err(e) && e@ == ParserErrorView::InvalidFormat(format@),
                Some(k) => match spec_open(k, data@) {
                    Ok(v) => r matches Ok(p) && p@ == v,
                    Err(ev) => r matches Err(e) && e@ == ev,
                },
            },
    {
        match format_kind(format) {
            Some(FormatKind::Csv) => Ok(ParserByType::Csv(ParserCsv::read_from(data)?)),
            Some(FormatKind::Txt) => Ok(ParserByType::Txt(ParserTxt::read_from(data)?)),
            Some(FormatKind::Bin) => Ok(ParserByType::Bin(ParserBin::read_from(data)?)),
            None => Err(ParserError::InvalidFormat(format.to_owned())),
        }
    }

    /// The next record, an error, or `None` at the end of the input.
    pub fn next(&mut self) -> (r: Option<Result<Record, ParserError>>)
        ensures
            (item_view(r), final(self)@) == spec_by_type_next(old(self)@),
    {
        match self {
            ParserByType::Csv(p) => p.next(),
            ParserByType::Txt(p) => p.next(),
            ParserByType::Bin(p) => p.next(),
        }
    }

    /// How many input bytes are left to read.
    pub fn remaining(&self) -> (n: usize)
        ensures
            n == spec_by_type_remaining(self@),
    {
        match self {
            ParserByType::Csv(p) => p.remaining(),
            ParserByType::Txt(p) => p.remaining(),
            ParserByType::Bin(p) => p.remaining(),
        }
    }

    /// Writes to `out`, in the format named `output_format`, its header and every record that
    /// this parser yields, up to the end of the input or the first error, which is then
    /// returned. An unknown format name is refused with `ConversionNotSupported`, before
    /// anything is read or written.
    pub fn convert_to(&mut self, output_format: &str, out: &mut Vec<u8>) -> (r: Result<
        (),
        ParserError,
    >)
        ensures
            match spec_format(output_format@) {
                None => r matches Err(e) && e@ == ParserErrorView::ConversionNotSupported
                    && final(out)@ == old(out)@ && final(self)@ == old(self)@,
                Some(k) => {
                    &&& final(out)@ == old(out)@ + spec_output(
                        k,
                        spec_by_type_records(old(self)@).0,
                    )
                    &&& final(self)@ == spec_by_type_end(old(self)@)
                    &&& r is Ok ==> spec_by_type_next(final(self)@).0 is None
                    &&& match r {
                        Ok(()) => spec_by_type_records(old(self)@).1 is None,
                        Err(e) => spec_by_type_records(old(self)@).1 == Some(e@),
                    }
                },
            },
    {
        let kind = match format_kind(output_format) {
            Some(k) => k,
            None => {
                return Err(ParserError::ConversionNotSupported);
            },
        };
        match (self, kind) {
            (ParserByType::Csv(p), FormatKind::Txt) => convert_to::<ParserCsv, ParserTxt>(p, out),
            (ParserByType::Csv(p), FormatKind::Bin) => convert_to::<ParserCsv, ParserBin>(p, out),
            (ParserByType::Csv(p), FormatKind::Csv) => convert_to::<ParserCsv, ParserCsv>(p, out),
            (ParserByType::Txt(p), FormatKind::Csv) => convert_to::<ParserTxt, ParserCsv>(p, out),
            (ParserByType::Txt(p), FormatKind::Bin) => convert_to::<ParserTxt, ParserBin>(p, out),
            (ParserByType::Txt(p), FormatKind::Txt) => convert_to::<ParserTxt, ParserTxt>(p, out),
            (ParserByType::Bin(p), FormatKind::Csv) => convert_to::<ParserBin, ParserCsv>(p, out),
            (ParserByType::Bin(p), FormatKind::Txt) => convert_to::<ParserBin, ParserTxt>(p, out),
            (ParserByType::Bin(p), FormatKind::Bin) => convert_to::<ParserBin, ParserBin>(p, out),
        }
    }

    /// Compares the records of this parser with those of `other`, one pair at a time, until
    /// both end, one ends first, one fails, or a pair differs.
    pub fn compare(&mut self, other: &mut ParserByType) -> (r: Comparison)
        ensures
            r@ == spec_compare(old(self)@, old(other)@, 0),
    {
        let total = self.remaining();
        let mut seen: usize = 0;
        let ghost a0 = self@;
        let ghost b0 = other@;
        loop
            invariant
                a0 == old(self)@,
                b0 == old(other)@,
                total == spec_by_type_remaining(a0),
                seen + spec_by_type_remaining(self@) <= total,
                spec_compare(a0, b0, 0) == spec_compare(self@, other@, seen as nat),
            decreases spec_by_type_remaining(self@) + spec_by_type_remaining(other@),
        {
            let ghost a = self@;
            let ghost b = other@;
            proof {
                lemma_by_type_progress(a);
                lemma_by_type_progress(b);
            }
            let i1 = self.next();
            let i2 = other.next();
            match (i1, i2) {
                (None, None) => {
                    return Comparison::Identical(seen);
                },
                (Some(Ok(_)), None) => {
                    return Comparison::DifferentLength;
                },
                (None, Some(Ok(_))) => {
                    return Comparison::DifferentLength;
                },
                (Some(Err(e)), _) => {
                    return Comparison::Failed(e);
                },
                (_, Some(Err(e))) => {
                    return Comparison::Failed(e);
                },
                (Some(Ok(r1)), Some(Ok(r2))) => {
                    seen = seen + 1;
                    if !r1.same_as(&r2) {
                        return Comparison::DifferentRecord(seen, r1, r2);
                    }
                },
            }
        }
    }
}

// ---------------------------------------------------------------------------
// Laws
// ---------------------------------------------------------------------------

/// The records of a parser in the form `spec_by_type_records` gives, reached one `next` at a
/// time.
proof fn lemma_by_type_records_step(s: ParserByTypeView)
    ensures
        ({
            let (item, s2) = spec_by_type_next(s);
            spec_by_type_records(s) == match item {
                None => (Seq::<RecordView>::empty(), None::<ParserErrorView>),
                Some(Err(e)) => (Seq::<RecordView>::empty(), Some(e)),
                Some(Ok(r)) => (
                    seq![r] + spec_by_type_records(s2).0,
                    spec_by_type_records(s2).1,
                ),
            }
        }),
{
    lemma_by_type_progress(s);
    match s {
        ParserByTypeView::Csv(v) => {
            ParserCsv::lemma_next_progress(v);
        },
        ParserByTypeView::Txt(v) => {
            ParserTxt::lemma_next_progress(v);
        },
        ParserByTypeView::Bin(v) => {
            ParserBin::lemma_next_progress(v);
        },
    }
}

/// Two parsers that yield the same records compare as identical, with as many records as they
/// yield; where reading fails after them, the comparison fails with the first parser's error,
/// or else with the second's.
pub proof fn lemma_compare_same_records(a: ParserByTypeView, b: ParserByTypeView, seen: nat)
    requires
        spec_by_type_records(a).0 == spec_by_type_records(b).0,
    ensures
        spec_compare(a, b, seen) == match (spec_by_type_records(a).1, spec_by_type_records(b).1) {
            (None, None) => ComparisonView::Identical(seen + spec_by_type_records(a).0.len()),
            (Some(e), _) => ComparisonView::Failed(e),
            (None, Some(e)) => ComparisonView::Failed(e),
        },
    decreases spec_by_type_remaining(a) + spec_by_type_remaining(b),
{
    lemma_by_type_records_step(a);
    lemma_by_type_records_step(b);
    lemma_by_type_progress(a);
    lemma_by_type_progress(b);
    let (i1, a2) = spec_by_type_next(a);
    let (i2, b2) = spec_by_type_next(b);
    match i1 {
        Some(Ok(r1)) => {
            assert(spec_by_type_records(a).0[0] == r1);
            match i2 {
                Some(Ok(r2)) => {
                    assert(spec_by_type_records(b).0[0] == r2);
                    assert(spec_by_type_records(a2).0 =~= spec_by_type_records(a).0.drop_first());
                    assert(spec_by_type_records(b2).0 =~= spec_by_type_records(b).0.drop_first());
                    lemma_compare_same_records(a2, b2, seen + 1);
                },
                _ => {
                    assert(spec_by_type_records(b).0.len() == 0);
                },
            }
        },
        _ => {
            assert(spec_by_type_records(a).0.len() == 0);
            match i2 {
                Some(Ok(r2)) => {
                    assert(spec_by_type_records(b).0.len() > 0);
                },
                _ => {},
            }
        },
    }
}

/// What comparing two parsers gives, in terms of the records each yields (`ra`, `rb`) and the
/// error, if any, that ends each (`ea`, `eb`), `seen` pairs having matched already:
/// - at the first position where both yield a record and the two records differ in any field,
///   the comparison is that position (counted from 1) with both records;
/// - when the records of one are the records of the other followed by more, the comparison is
///   `DifferentLength`, unless the shorter one ends with an error, which is then the result;
/// - when both yield the same records, they are identical, with that many records, unless one
///   ends with an error: the first parser's, else the second's, is then the result.
pub proof fn lemma_compare_outcome(a: ParserByTypeView, b: ParserByTypeView, seen: nat)
    ensures
        ({
            let (ra, ea) = spec_by_type_records(a);
            let (rb, eb) = spec_by_type_records(b);
            &&& forall|i: int|
                0 <= i < ra.len() && i < rb.len() && ra.take(i) == rb.take(i) && ra[i] != rb[i]
                    ==> spec_compare(a, b, seen) == ComparisonView::DifferentRecord(
                    (seen + i + 1) as nat,
                    ra[i],
                    rb[i],
                )
            &&& ra.len() < rb.len() && ra == rb.take(ra.len() as int) ==> spec_compare(a, b, seen)
                == match ea {
                Some(e) => ComparisonView::Failed(e),
                None => ComparisonView::DifferentLength,
            }
            &&& rb.len() < ra.len() && rb == ra.take(rb.len() as int) ==> spec_compare(a, b, seen)
                == match eb {
                Some(e) => ComparisonView::Failed(e),
                None => ComparisonView::DifferentLength,
            }
            &&& ra == rb ==> spec_compare(a, b, seen) == match (ea, eb) {
                (Some(e), _) => ComparisonView::Failed(e),
                (None, Some(e)) => ComparisonView::Failed(e),
                (None, None) => ComparisonView::Identical(seen + ra.len()),
            }
        }),
    decreases spec_by_type_remaining(a) + spec_by_type_remaining(b),
{
    lemma_by_type_records_step(a);
    lemma_by_type_records_step(b);
    lemma_by_type_progress(a);
    lemma_by_type_progress(b);
    let (ra, ea) = spec_by_type_records(a);
    let (rb, eb) = spec_by_type_records(b);
    let (i1, a2) = spec_by_type_next(a);
    let (i2, b2) = spec_by_type_next(b);
    match (i1, i2) {
        (Some(Ok(r1)), Some(Ok(r2))) => {
            let ra2 = spec_by_type_records(a2).0;
            let rb2 = spec_by_type_records(b2).0;
            assert(ra == seq![r1] + ra2);
            assert(rb == seq![r2] + rb2);
            assert(ra[0] == r1);
            assert(rb[0] == r2);
            if r1 != r2 {
                assert forall|i: int|
                    0 <= i < ra.len() && i < rb.len() && ra.take(i) == rb.take(i) && ra[i]
                        != rb[i] implies spec_compare(a, b, seen) == ComparisonView::DifferentRecord(
                    (seen + i + 1) as nat,
                    ra[i],
                    rb[i],
                ) by {
                    if i > 0 {
                        assert(ra.take(i)[0] == rb.take(i)[0]);
                    }
                }
                if ra.len() <= rb.len() && ra == rb.take(ra.len() as int) {
                    assert(rb.take(ra.len() as int)[0] == rb[0]);
                }
                if rb.len() <= ra.len() && rb == ra.take(rb.len() as int) {
                    assert(ra.take(rb.len() as int)[0] == ra[0]);
                }
            } else {
                lemma_compare_outcome(a2, b2, seen + 1);
                assert(ra2 =~= ra.drop_first());
                assert(rb2 =~= rb.drop_first());
                assert forall|i: int|
                    0 <= i < ra.len() && i < rb.len() && ra.take(i) == rb.take(i) && ra[i]
                        != rb[i] implies spec_compare(a, b, seen) == ComparisonView::DifferentRecord(
                    (seen + i + 1) as nat,
                    ra[i],
                    rb[i],
                ) by {
                    assert(i > 0);
                    assert(ra2.take(i - 1) =~= ra.take(i).drop_first());
                    assert(rb2.take(i - 1) =~= rb.take(i).drop_first());
                    assert(ra2[i - 1] == ra[i]);
                    assert(rb2[i - 1] == rb[i]);
                }
                if ra.len() < rb.len() && ra == rb.take(ra.len() as int) {
                    assert(ra2 =~= rb2.take(ra2.len() as int));
                }
                if rb.len() < ra.len() && rb == ra.take(rb.len() as int) {
                    assert(rb2 =~= ra2.take(rb2.len() as int));
                }
                if ra == rb {
                    assert(ra2 =~= rb2);
                }
            }
        },
        (Some(Ok(r1)), _) => {
            assert(rb.len() == 0);
            assert(ra.len() > 0);
            assert(rb =~= ra.take(0));
        },
        (_, Some(Ok(r2))) => {
            assert(ra.len() == 0);
            assert(rb.len() > 0);
            assert(ra =~= rb.take(0));
        },
        _ => {
            assert(ra.len() == 0);
            assert(rb.len() == 0);
        },
    }
}

/// Comparing an input with another parser of the same input in the same state finds them
/// identical, with as many records as it yields, unless reading it fails, in which case the
/// comparison fails with that error.
pub proof fn lemma_compare_self(s: ParserByTypeView, seen: nat)
    ensures
        spec_compare(s, s, seen) == match spec_by_type_records(s).1 {
            None => ComparisonView::Identical(seen + spec_by_type_records(s).0.len()),
            Some(e) => ComparisonView::Failed(e),
        },
{
    lemma_compare_same_records(s, s, seen);
}

/// A record that format `k` writes and reads back unchanged.
pub open spec fn fits(k: FormatKind, r: RecordView) -> bool {
    match k {
        FormatKind::Csv => csv_fits(r),
        FormatKind::Txt => txt_fits(r),
        FormatKind::Bin => bin_fits(r),
    }
}

/// A file of format `k` holding the records `rs`: what `convert_to` writes, with, for the text
/// format, the line `title` before it (the text reader skips the first line of its input).
pub open spec fn spec_file(k: FormatKind, rs: Seq<RecordView>, title: Seq<char>) -> Seq<u8> {
    match k {
        FormatKind::Txt => encode_utf8(title.push('\n')) + spec_output(k, rs),
        _ => spec_output(k, rs),
    }
}

/// What `convert_to` writes in a format reads back, in that format, as the records it was
/// written from: the CSV output from its header on, the binary output from its first byte, and
/// the text output once a first line (which reading skips) is put before it. This holds for
/// records that fit the format written.
pub proof fn lemma_output_reads_back(k: FormatKind, rs: Seq<RecordView>, title: Seq<char>)
    requires
        k == FormatKind::Txt ==> forall|i: int| 0 <= i < title.len() ==> title[i] != '\n',
        forall|i: int| 0 <= i < rs.len() ==> fits(k, #[trigger] rs[i]),
    ensures
        spec_open(k, spec_file(k, rs, title)) matches Ok(s) && spec_by_type_records(s) == (
            rs,
            None::<ParserErrorView>,
        ),
{
    match k {
        FormatKind::Csv => {
            assert forall|i: int| 0 <= i < rs.len() implies csv_fits(#[trigger] rs[i]) by {
                assert(fits(k, rs[i]));
            }
            lemma_csv_written_reads_back(rs);
        },
        FormatKind::Bin => {
            assert forall|i: int| 0 <= i < rs.len() implies bin_fits(#[trigger] rs[i]) by {
                assert(fits(k, rs[i]));
            }
            lemma_bin_read_back(rs, Seq::<u8>::empty());
            assert(Seq::<u8>::empty() + encode_all::<ParserBin>(rs) =~= spec_output(k, rs));
        },
        FormatKind::Txt => {
            assert forall|i: int| 0 <= i < rs.len() implies txt_fits(#[trigger] rs[i]) by {
                assert(fits(k, rs[i]));
            }
            lemma_txt_written_reads_back(title, rs);
            assert(spec_output(k, rs) =~= encode_all::<ParserTxt>(rs));
        },
    }
}

/// Files of two formats written from the same records compare as identical, record for
/// record, when the records fit both formats.
pub proof fn lemma_files_compare_identical(
    k1: FormatKind,
    k2: FormatKind,
    rs: Seq<RecordView>,
    title: Seq<char>,
)
    requires
        forall|i: int| 0 <= i < title.len() ==> title[i] != '\n',
        forall|i: int| 0 <= i < rs.len() ==> fits(k1, #[trigger] rs[i]) && fits(k2, rs[i]),
    ensures
        spec_open(k1, spec_file(k1, rs, title)) matches Ok(a) && spec_open(
            k2,
            spec_file(k2, rs, title),
        ) matches Ok(b) && spec_compare(a, b, 0) == ComparisonView::Identical(rs.len()),
{
    lemma_output_reads_back(k1, rs, title);
    lemma_output_reads_back(k2, rs, title);
    let a = spec_open(k1, spec_file(k1, rs, title))->Ok_0;
    let b = spec_open(k2, spec_file(k2, rs, title))->Ok_0;
    lemma_compare_same_records(a, b, 0);
}

} // verus!
