//! The interface that every format's parser offers: reading records one by one from the bytes
//! of an input, and writing records in the format.
use vstd::prelude::*;

use crate::errors::{ParserError, ParserErrorView};
use crate::record::{Record, RecordView};

verus! {

/// The value of what a parser's `next` returns.
pub open spec fn item_view(item: Option<Result<Record, ParserError>>) -> Option<
    Result<RecordView, ParserErrorView>,
> {
    match item {
        None => None,
        Some(Ok(r)) => Some(Ok(r@)),
        Some(Err(e)) => Some(Err(e@)),
    }
}

/// The records that a parser in state `s` yields, one call of `next` after the other, up to the
/// first `None` or error, and that error if one ends them.
pub open spec fn parse_all<P: Parser>(s: P::V) -> (Seq<RecordView>, Option<ParserErrorView>)
    decreases P::spec_remaining(s),
{
    let (item, s2) = P::spec_next(s);
    match item {
        None => (seq![], None),
        Some(Err(e)) => (seq![], Some(e)),
        Some(Ok(r)) => if P::spec_remaining(s2) < P::spec_remaining(s) {
            let (rs, e) = parse_all::<P>(s2);
            (seq![r] + rs, e)
        } else {
            (seq![r], None)
        },
    }
}

/// The state in which a parser in state `s` is left after yielding all that `parse_all` lists,
/// and the `None` or error that ends it.
pub open spec fn parse_all_end<P: Parser>(s: P::V) -> P::V
    decreases P::spec_remaining(s),
{
    let (item, s2) = P::spec_next(s);
    match item {
        Some(Ok(r)) => if P::spec_remaining(s2) < P::spec_remaining(s) {
            parse_all_end::<P>(s2)
        } else {
            s2
        },
        _ => s2,
    }
}

/// The bytes that format `P` writes for the records `rs`, one after the other.
pub open spec fn encode_all<P: Parser>(rs: Seq<RecordView>) -> Seq<u8>
    decreases rs.len(),
{
    if rs.len() == 0 {
        seq![]
    } else {
        P::spec_record_bytes(rs[0]) + encode_all::<P>(rs.drop_first())
    }
}

/// Encoding one more record appends its bytes.
pub proof fn lemma_encode_all_push<P: Parser>(rs: Seq<RecordView>, r: RecordView)
    ensures
        encode_all::<P>(rs.push(r)) == encode_all::<P>(rs) + P::spec_record_bytes(r),
    decreases rs.len(),
{
    if rs.len() == 0 {
        assert(rs.push(r).drop_first() =~= seq![]);
        assert(encode_all::<P>(seq![]) =~= seq![]);
        assert(encode_all::<P>(rs.push(r)) =~= P::spec_record_bytes(r));
    } else {
        lemma_encode_all_push::<P>(rs.drop_first(), r);
        assert(rs.push(r).drop_first() =~= rs.drop_first().push(r));
        assert(rs.push(r)[0] == rs[0]);
        assert(encode_all::<P>(rs.push(r)) =~= encode_all::<P>(rs) + P::spec_record_bytes(r));
    }
}

/// A parser of one record format. Its state is read from the bytes of an input; each call of
/// `next` yields the next record (or an error), or `None` at the end.
pub trait Parser: Sized + View {
    /// How many input bytes are left to read in state `s`.
    spec fn spec_remaining(s: Self::V) -> nat;

    /// What `next` returns in state `s`, and the state after it.
    spec fn spec_next(s: Self::V) -> (Option<Result<RecordView, ParserErrorView>>, Self::V);

    /// The state in which `read_from` leaves a parser of `data`, or its error.
    spec fn spec_read_from(data: Seq<u8>) -> Result<Self::V, ParserErrorView>;

    /// The bytes that open an output of the format.
    spec fn spec_header() -> Seq<u8>;

    /// The bytes under which the format writes the record `r`.
    spec fn spec_record_bytes(r: RecordView) -> Seq<u8>;

    /// Each record that `next` yields consumes input.
    proof fn lemma_next_progress(s: Self::V)
        ensures
            Self::spec_next(s).0 is Some ==> Self::spec_remaining(Self::spec_next(s).1)
                < Self::spec_remaining(s),
    ;

    /// Once `next` has returned `None`, it returns `None` again.
    proof fn lemma_none_stays(s: Self::V)
        ensures
            Self::spec_next(s).0 is None ==> Self::spec_next(Self::spec_next(s).1).0 is None,
    ;

    /// A parser of the bytes `data`, after reading what comes before the first record.
    fn read_from(data: Vec<u8>) -> (r: Result<Self, ParserError>)
        ensures
            match r {
                Ok(p) => Self::spec_read_from(data@) == Ok::<Self::V, ParserErrorView>(p@),
                Err(e) => Self::spec_read_from(data@) == Err::<Self::V, ParserErrorView>(e@),
            },
    ;

    /// The next record, an error, or `None` at the end of the input.
    fn next(&mut self) -> (r: Option<Result<Record, ParserError>>)
        ensures
            (item_view(r), final(self)@) == Self::spec_next(old(self)@),
    ;

    /// How many input bytes are left to read.
    fn remaining(&self) -> (n: usize)
        ensures
            n == Self::spec_remaining(self@),
    ;

    /// Appends the bytes of one record in the format.
    fn write_record(record: &Record, out: &mut Vec<u8>) -> (r: Result<(), ParserError>)
        ensures
            r is Ok,
            final(out)@ == old(out)@ + Self::spec_record_bytes(record@),
    ;

    /// Appends what opens an output of the format.
    fn write_header(out: &mut Vec<u8>) -> (r: Result<(), ParserError>)
        ensures
            r is Ok,
            final(out)@ == old(out)@ + Self::spec_header(),
    ;
}

/// When the records of a parser in state `s` end without an error, it is left in a state in
/// which `next` returns `None`.
pub proof fn lemma_parse_all_end_none<P: Parser>(s: P::V)
    ensures
        parse_all::<P>(s).1 is None ==> P::spec_next(parse_all_end::<P>(s)).0 is None,
    decreases P::spec_remaining(s),
{
    P::lemma_next_progress(s);
    let (item, s2) = P::spec_next(s);
    match item {
        None => {
            P::lemma_none_stays(s);
        },
        Some(Err(_)) => {},
        Some(Ok(_)) => {
            lemma_parse_all_end_none::<P>(s2);
        },
    }
}

/// Appends, in format `T`, every record that `iter` yields, up to the end of its input or
/// its first error, which is then returned.
pub fn write_all_from_iter<T: Parser, P: Parser>(iter: &mut P, out: &mut Vec<u8>) -> (r: Result<
    (),
    ParserError,
>)
    ensures
        final(out)@ == old(out)@ + encode_all::<T>(parse_all::<P>(old(iter)@).0),
        final(iter)@ == parse_all_end::<P>(old(iter)@),
        r is Ok ==> P::spec_next(final(iter)@).0 is None,
        match r {
            Ok(()) => parse_all::<P>(old(iter)@).1 is None,
            Err(e) => parse_all::<P>(old(iter)@).1 == Some(e@),
        },
{
    let ghost start = iter@;
    let ghost mut done: Seq<RecordView> = seq![];
    proof {
        lemma_parse_all_end_none::<P>(start);
    }
    loop
        invariant
            start == old(iter)@,
            parse_all::<P>(start).0 == done + parse_all::<P>(iter@).0,
            parse_all::<P>(start).1 == parse_all::<P>(iter@).1,
            parse_all_end::<P>(start) == parse_all_end::<P>(iter@),
            parse_all::<P>(start).1 is None ==> P::spec_next(parse_all_end::<P>(start)).0 is None,
            out@ == old(out)@ + encode_all::<T>(done),
        decreases P::spec_remaining(iter@),
    {
        let ghost before = iter@;
        proof {
            P::lemma_next_progress(before);
        }
        match iter.next() {
            None => {
                proof {
                    assert(done + parse_all::<P>(before).0 =~= done);
                }
                return Ok(());
            },
            Some(Err(e)) => {
                proof {
                    assert(done + parse_all::<P>(before).0 =~= done);
                }
                return Err(e);
            },
            Some(Ok(record)) => {
                let _ = T::write_record(&record, out);
                proof {
                    lemma_encode_all_push::<T>(done, record@);
                    assert(parse_all::<P>(before).0 == seq![record@] + parse_all::<P>(
                        iter@,
                    ).0);
                    assert(done + parse_all::<P>(before).0 =~= done.push(record@)
                        + parse_all::<P>(iter@).0);
                    done = done.push(record@);
                }
            },
        }
    }
}

/// Writes the header of format `Other`, then every record that `source` yields in
/// format `Other`, up to the end of the input or the first error, which is then returned.
pub fn convert_to<S: Parser, Other: Parser>(source: &mut S, out: &mut Vec<u8>) -> (r: Result<(), ParserError>)
    ensures
        final(out)@ == old(out)@ + Other::spec_header() + encode_all::<Other>(
            parse_all::<S>(old(source)@).0,
        ),
        final(source)@ == parse_all_end::<S>(old(source)@),
        r is Ok ==> S::spec_next(final(source)@).0 is None,
        match r {
            Ok(()) => parse_all::<S>(old(source)@).1 is None,
            Err(e) => parse_all::<S>(old(source)@).1 == Some(e@),
        },
{
    let _ = Other::write_header(out);
    let r = write_all_from_iter::<Other, S>(source, out);
    proof {
        assert(old(out)@ + Other::spec_header() + encode_all::<Other>(
            parse_all::<S>(old(source)@).0,
        ) =~= final(out)@);
    }
    r
}

} // verus!
