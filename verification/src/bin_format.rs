//! The binary format. Each record is a header (the magic number `YPBN` and the size of the body,
//! both big-endian `u32`) followed by the body: `TX_ID: u64`, `TX_TYPE: u8`,
//! `FROM_USER_ID: u64`, `TO_USER_ID: u64`, `AMOUNT: i64`, `TIMESTAMP: u64`, `STATUS: u8`,
//! `DESC_LEN: u32` and `DESC_LEN` bytes of UTF-8 description, all big-endian.
use vstd::prelude::*;
use vstd::utf8::{decode_utf8, encode_utf8, encode_utf8_decode_utf8, encode_utf8_valid_utf8, valid_utf8};

use crate::errors::{ParseRecordError, ParserError, ParserErrorView};
use crate::record::{Record, RecordView, TxStatus, TxType};
use crate::text::{copy_bytes, lossy_decoded, push_utf8, string_from_utf8_lossy};
use crate::types::{encode_all, item_view, parse_all, Parser};

verus! {

/// The magic number that opens every binary record: the bytes `Y`, `P`, `B`, `N`.
pub const MAGIC_HEADER: u32 = 0x5950_424E;

/// Size of a body without its description.
pub const BODY_FIXED_LEN: usize = 46;

// ---------------------------------------------------------------------------
// Big-endian integers
// ---------------------------------------------------------------------------

/// The big-endian bytes of a `u32`.
pub open spec fn u32_be(n: u32) -> Seq<u8> {
    seq![(n >> 24u32) as u8, (n >> 16u32) as u8, (n >> 8u32) as u8, n as u8]
}

/// The big-endian bytes of a `u64`.
pub open spec fn u64_be(n: u64) -> Seq<u8> {
    seq![
        (n >> 56u64) as u8,
        (n >> 48u64) as u8,
        (n >> 40u64) as u8,
        (n >> 32u64) as u8,
        (n >> 24u64) as u8,
        (n >> 16u64) as u8,
        (n >> 8u64) as u8,
        n as u8,
    ]
}

/// The `u32` whose big-endian bytes begin `b`.
pub open spec fn be_u32(b: Seq<u8>) -> u32 {
    ((b[0] as u32) << 24u32) | ((b[1] as u32) << 16u32) | ((b[2] as u32) << 8u32) | (b[3] as u32)
}

/// The `u64` whose big-endian bytes begin `b`.
pub open spec fn be_u64(b: Seq<u8>) -> u64 {
    ((b[0] as u64) << 56u64) | ((b[1] as u64) << 48u64) | ((b[2] as u64) << 40u64) | ((
    b[3] as u64) << 32u64) | ((b[4] as u64) << 24u64) | ((b[5] as u64) << 16u64) | ((
    b[6] as u64) << 8u64) | (b[7] as u64)
}

/// Reading back the big-endian bytes of a `u32` gives it.
pub proof fn lemma_u32_be_roundtrip(n: u32)
    ensures
        be_u32(u32_be(n)) == n,
{
    let b0 = (n >> 24u32) as u8;
    let b1 = (n >> 16u32) as u8;
    let b2 = (n >> 8u32) as u8;
    let b3 = n as u8;
    assert(((b0 as u32) << 24u32) | ((b1 as u32) << 16u32) | ((b2 as u32) << 8u32) | (b3 as u32)
        == n) by (bit_vector)
        requires
            b0 == (n >> 24u32) as u8,
            b1 == (n >> 16u32) as u8,
            b2 == (n >> 8u32) as u8,
            b3 == n as u8,
    ;
}

/// Reading back the big-endian bytes of a `u64` gives it.
pub proof fn lemma_u64_be_roundtrip(n: u64)
    ensures
        be_u64(u64_be(n)) == n,
{
    let b0 = (n >> 56u64) as u8;
    let b1 = (n >> 48u64) as u8;
    let b2 = (n >> 40u64) as u8;
    let b3 = (n >> 32u64) as u8;
    let b4 = (n >> 24u64) as u8;
    let b5 = (n >> 16u64) as u8;
    let b6 = (n >> 8u64) as u8;
    let b7 = n as u8;
    assert(((b0 as u64) << 56u64) | ((b1 as u64) << 48u64) | ((b2 as u64) << 40u64) | ((
    b3 as u64) << 32u64) | ((b4 as u64) << 24u64) | ((b5 as u64) << 16u64) | ((b6 as u64)
        << 8u64) | (b7 as u64) == n) by (bit_vector)
        requires
            b0 == (n >> 56u64) as u8,
            b1 == (n >> 48u64) as u8,
            b2 == (n >> 40u64) as u8,
            b3 == (n >> 32u64) as u8,
            b4 == (n >> 24u64) as u8,
            b5 == (n >> 16u64) as u8,
            b6 == (n >> 8u64) as u8,
            b7 == n as u8,
    ;
}

/// A signed amount read back from the bits of its unsigned form is the amount.
pub proof fn lemma_i64_bits_roundtrip(x: i64)
    ensures
        ((x as u64) as i64) == x,
{
    assert(((x as u64) as i64) == x) by (bit_vector);
}

fn push_u32_be(out: &mut Vec<u8>, n: u32)
    ensures
        final(out)@ == old(out)@ + u32_be(n),
{
    out.push((n >> 24u32) as u8);
    out.push((n >> 16u32) as u8);
    out.push((n >> 8u32) as u8);
    out.push(n as u8);
    proof {
        assert(final(out)@ =~= old(out)@ + u32_be(n));
    }
}

fn push_u64_be(out: &mut Vec<u8>, n: u64)
    ensures
        final(out)@ == old(out)@ + u64_be(n),
{
    out.push((n >> 56u64) as u8);
    out.push((n >> 48u64) as u8);
    out.push((n >> 40u64) as u8);
    out.push((n >> 32u64) as u8);
    out.push((n >> 24u64) as u8);
    out.push((n >> 16u64) as u8);
    out.push((n >> 8u64) as u8);
    out.push(n as u8);
    proof {
        assert(final(out)@ =~= old(out)@ + u64_be(n));
    }
}

fn read_u32_be(data: &Vec<u8>, at: usize) -> (r: u32)
    requires
        at + 4 <= data@.len(),
    ensures
        r == be_u32(data@.subrange(at as int, at + 4)),
{
    let _n = data.len();
    let ghost b = data@.subrange(at as int, at + 4);
    assert(b[0] == data@[at as int] && b[1] == data@[at + 1] && b[2] == data@[at + 2] && b[3]
        == data@[at + 3]);
    ((data[at] as u32) << 24u32) | ((data[at + 1] as u32) << 16u32) | ((data[at + 2] as u32)
        << 8u32) | (data[at + 3] as u32)
}

fn read_u64_be(data: &Vec<u8>, at: usize) -> (r: u64)
    requires
        at + 8 <= data@.len(),
    ensures
        r == be_u64(data@.subrange(at as int, at + 8)),
{
    let _n = data.len();
    let ghost b = data@.subrange(at as int, at + 8);
    assert(b[0] == data@[at as int] && b[1] == data@[at + 1] && b[2] == data@[at + 2] && b[3]
        == data@[at + 3] && b[4] == data@[at + 4] && b[5] == data@[at + 5] && b[6] == data@[at
        + 6] && b[7] == data@[at + 7]);
    ((data[at] as u64) << 56u64) | ((data[at + 1] as u64) << 48u64) | ((data[at + 2] as u64)
        << 40u64) | ((data[at + 3] as u64) << 32u64) | ((data[at + 4] as u64) << 24u64) | ((
    data[at + 5] as u64) << 16u64) | ((data[at + 6] as u64) << 8u64) | (data[at + 7] as u64)
}

// ---------------------------------------------------------------------------
// Writing
// ---------------------------------------------------------------------------

/// The body of a record: its fields without the header. Lengths are written as `u32`, cut to
/// their low 32 bits as the `as u32` cast does.
pub open spec fn spec_body(r: RecordView) -> Seq<u8> {
    let desc = encode_utf8(r.description);
    u64_be(r.id) + seq![r.tx_type.spec_byte()] + u64_be(r.from_user_id) + u64_be(r.to_user_id)
        + u64_be(r.amount as u64) + u64_be(r.timestamp) + seq![r.status.spec_byte()] + u32_be(
        desc.len() as u32,
    ) + desc
}

/// The bytes of a record in the binary format: header, then body.
pub open spec fn spec_bin_bytes(r: RecordView) -> Seq<u8> {
    u32_be(MAGIC_HEADER) + u32_be(spec_body(r).len() as u32) + spec_body(r)
}

/// The header that precedes each body.
pub struct HeaderBinRecord {
    magic: u32,
    record_size: u32,
}

impl HeaderBinRecord {
    /// The bytes of the header.
    fn to_vec(&self) -> (v: Vec<u8>)
        ensures
            v@ == u32_be(self.magic) + u32_be(self.record_size),
    {
        let mut v: Vec<u8> = Vec::new();
        push_u32_be(&mut v, self.magic);
        push_u32_be(&mut v, self.record_size);
        proof {
            assert(v@ =~= u32_be(self.magic) + u32_be(self.record_size));
        }
        v
    }
}

impl Record {
    /// The header for the body `body`.
    fn make_header(&self, body: &Vec<u8>) -> (h: HeaderBinRecord)
        ensures
            h.magic == MAGIC_HEADER,
            h.record_size == body@.len() as u32,
    {
        HeaderBinRecord { magic: MAGIC_HEADER, record_size: body.len() as u32 }
    }

    /// The body of the record in the binary format.
    fn make_body(&self) -> (v: Vec<u8>)
        ensures
            v@ == spec_body(self@),
    {
        let mut desc: Vec<u8> = Vec::new();
        push_utf8(&mut desc, self.description.as_str());
        let mut v: Vec<u8> = Vec::new();
        push_u64_be(&mut v, self.id);
        v.push(self.tx_type.to_byte());
        push_u64_be(&mut v, self.from_user_id);
        push_u64_be(&mut v, self.to_user_id);
        push_u64_be(&mut v, self.amount as u64);
        push_u64_be(&mut v, self.timestamp);
        v.push(self.status.to_byte());
        push_u32_be(&mut v, desc.len() as u32);
        let ghost before = v@;
        let mut i: usize = 0;
        while i < desc.len()
            invariant
                0 <= i <= desc@.len(),
                v@ == before + desc@.take(i as int),
            decreases desc@.len() - i,
        {
            v.push(desc[i]);
            i = i + 1;
            proof {
                assert(v@ =~= before + desc@.take(i as int));
            }
        }
        proof {
            assert(desc@.take(desc@.len() as int) =~= desc@);
            assert(v@ =~= spec_body(self@));
        }
        v
    }

    /// The bytes of the record in the binary format: header, then body.
    pub fn as_bytes(&self) -> (v: Vec<u8>)
        ensures
            v@ == spec_bin_bytes(self@),
    {
        let body = self.make_body();
        let mut v = self.make_header(&body).to_vec();
        let ghost before = v@;
        let mut i: usize = 0;
        while i < body.len()
            invariant
                0 <= i <= body@.len(),
                v@ == before + body@.take(i as int),
            decreases body@.len() - i,
        {
            v.push(body[i]);
            i = i + 1;
            proof {
                assert(v@ =~= before + body@.take(i as int));
            }
        }
        proof {
            assert(body@.take(body@.len() as int) =~= body@);
            assert(v@ =~= spec_bin_bytes(self@));
        }
        v
    }
}

// ---------------------------------------------------------------------------
// Reading
// ---------------------------------------------------------------------------

/// What a body reads as: a record, or why it is refused. A body too short for its fields or
/// for its description is refused; bytes after the description are ignored; a description
/// that is not valid UTF-8 is decoded with replacement characters.
pub open spec fn spec_decode_body(body: Seq<u8>) -> Result<RecordView, ParserErrorView> {
    if body.len() < BODY_FIXED_LEN {
        Err(ParserErrorView::InvalidRecordSize)
    } else {
        let desc_len = be_u32(body.subrange(42, 46)) as int;
        if BODY_FIXED_LEN + desc_len > body.len() {
            Err(ParserErrorView::InvalidRecordSize)
        } else {
            match TxType::spec_from_byte(body[8]) {
                None => Err(ParserErrorView::ParseRecord(ParseRecordError::UnknownTxType)),
                Some(tx_type) => match TxStatus::spec_from_byte(body[41]) {
                    None => Err(ParserErrorView::ParseRecord(ParseRecordError::UnknownStatus)),
                    Some(status) => Ok(
                        RecordView {
                            id: be_u64(body.subrange(0, 8)),
                            tx_type,
                            from_user_id: be_u64(body.subrange(9, 17)),
                            to_user_id: be_u64(body.subrange(17, 25)),
                            amount: be_u64(body.subrange(25, 33)) as i64,
                            timestamp: be_u64(body.subrange(33, 41)),
                            status,
                            description: lossy_decoded(body.subrange(46, 46 + desc_len)),
                        },
                    ),
                },
            }
        }
    }
}

/// The state of a binary parser: the input and the position of the next record.
pub struct ParserBinView {
    pub data: Seq<u8>,
    pub pos: int,
}

/// What reading the next record returns in state `s`, and the state after it. At the end of
/// the input, or with fewer than four bytes left, there is no record. Otherwise the record
/// must start with the magic number, and its header and body must be complete.
#[verifier::opaque]
pub open spec fn spec_bin_next(s: ParserBinView) -> (
    Option<Result<RecordView, ParserErrorView>>,
    ParserBinView,
) {
    let len = s.data.len() as int;
    let at_end = ParserBinView { data: s.data, pos: len };
    if s.pos + 4 > len {
        (None, at_end)
    } else if be_u32(s.data.subrange(s.pos, s.pos + 4)) != MAGIC_HEADER {
        (
            Some(Err(ParserErrorView::InvalidMagicNumber)),
            ParserBinView { data: s.data, pos: s.pos + 4 },
        )
    } else if s.pos + 8 > len {
        (Some(Err(ParserErrorView::UnexpectedEof)), at_end)
    } else {
        let size = be_u32(s.data.subrange(s.pos + 4, s.pos + 8)) as int;
        if s.pos + 8 + size > len {
            (Some(Err(ParserErrorView::UnexpectedEof)), at_end)
        } else {
            (
                Some(spec_decode_body(s.data.subrange(s.pos + 8, s.pos + 8 + size))),
                ParserBinView { data: s.data, pos: s.pos + 8 + size },
            )
        }
    }
}

/// Reader of binary records from the bytes of an input.
pub struct ParserBin {
    data: Vec<u8>,
    pos: usize,
}

impl View for ParserBin {
    type V = ParserBinView;

    closed spec fn view(&self) -> ParserBinView {
        ParserBinView { data: self.data@, pos: self.pos as int }
    }
}

/// Reads the body in `data[start..end]`.
fn decode_body(data: &Vec<u8>, start: usize, end: usize) -> (r: Result<Record, ParserError>)
    requires
        start <= end <= data@.len(),
    ensures
        match r {
            Ok(rec) => spec_decode_body(data@.subrange(start as int, end as int)) == Ok::<
                RecordView,
                ParserErrorView,
            >(rec@),
            Err(e) => spec_decode_body(data@.subrange(start as int, end as int)) == Err::<
                RecordView,
                ParserErrorView,
            >(e@),
        },
{
    let ghost body = data@.subrange(start as int, end as int);
    if end - start < BODY_FIXED_LEN {
        return Err(ParserError::InvalidRecordSize);
    }
    let desc_len = read_u32_be(data, start + 42) as usize;
    proof {
        assert(body.subrange(42, 46) =~= data@.subrange(start + 42, start + 46));
    }
    if end - start - BODY_FIXED_LEN < desc_len {
        return Err(ParserError::InvalidRecordSize);
    }
    assert(body[8] == data@[start + 8]);
    assert(body[41] == data@[start + 41]);
    let tx_type = match TxType::try_from_byte(data[start + 8]) {
        Ok(t) => t,
        Err(e) => {
            return Err(ParserError::ParseRecord(e));
        },
    };
    let status = match TxStatus::try_from_byte(data[start + 41]) {
        Ok(t) => t,
        Err(e) => {
            return Err(ParserError::ParseRecord(e));
        },
    };
    let id = read_u64_be(data, start);
    let from_user_id = read_u64_be(data, start + 9);
    let to_user_id = read_u64_be(data, start + 17);
    let amount = read_u64_be(data, start + 25) as i64;
    let timestamp = read_u64_be(data, start + 33);
    let desc = copy_bytes(data, start + 46, start + 46 + desc_len);
    let description = string_from_utf8_lossy(desc.as_slice());
    proof {
        assert(body.subrange(0, 8) =~= data@.subrange(start as int, start + 8));
        assert(body.subrange(9, 17) =~= data@.subrange(start + 9, start + 17));
        assert(body.subrange(17, 25) =~= data@.subrange(start + 17, start + 25));
        assert(body.subrange(25, 33) =~= data@.subrange(start + 25, start + 33));
        assert(body.subrange(33, 41) =~= data@.subrange(start + 33, start + 41));
        assert(body.subrange(46, 46 + desc_len) =~= desc@);
    }
    Ok(
        Record {
            id,
            tx_type,
            from_user_id,
            to_user_id,
            amount,
            timestamp,
            status,
            description,
        },
    )
}

impl ParserBin {
    /// A reader of the binary records in `data`, starting at its first byte.
    pub fn new(data: Vec<u8>) -> (p: Self)
        ensures
            p@ == (ParserBinView { data: data@, pos: 0 }),
    {
        ParserBin { data, pos: 0 }
    }
}

impl Parser for ParserBin {
    open spec fn spec_remaining(s: ParserBinView) -> nat {
        if s.pos <= s.data.len() {
            (s.data.len() - s.pos) as nat
        } else {
            0
        }
    }

    open spec fn spec_next(s: ParserBinView) -> (
        Option<Result<RecordView, ParserErrorView>>,
        ParserBinView,
    ) {
        spec_bin_next(s)
    }

    open spec fn spec_read_from(data: Seq<u8>) -> Result<ParserBinView, ParserErrorView> {
        Ok(ParserBinView { data, pos: 0 })
    }

    open spec fn spec_header() -> Seq<u8> {
        seq![]
    }

    open spec fn spec_record_bytes(r: RecordView) -> Seq<u8> {
        spec_bin_bytes(r)
    }

    proof fn lemma_next_progress(s: ParserBinView) {
        reveal(spec_bin_next);
    }

    proof fn lemma_none_stays(s: ParserBinView) {
        reveal(spec_bin_next);
    }

    fn read_from(data: Vec<u8>) -> (r: Result<Self, ParserError>) {
        Ok(ParserBin::new(data))
    }

    fn next(&mut self) -> (r: Option<Result<Record, ParserError>>) {
        proof {
            reveal(spec_bin_next);
        }
        let len = self.data.len();
        let pos = self.pos;
        if pos > len || len - pos < 4 {
            self.pos = len;
            return None;
        }
        let magic = read_u32_be(&self.data, pos);
        if magic != MAGIC_HEADER {
            self.pos = pos + 4;
            return Some(Err(ParserError::InvalidMagicNumber));
        }
        if len - pos < 8 {
            self.pos = len;
            return Some(Err(ParserError::UnexpectedEof));
        }
        let size = read_u32_be(&self.data, pos + 4) as usize;
        if len - (pos + 8) < size {
            self.pos = len;
            return Some(Err(ParserError::UnexpectedEof));
        }
        let start = pos + 8;
        let end = start + size;
        self.pos = end;
        let r = decode_body(&self.data, start, end);
        Some(r)
    }

    fn remaining(&self) -> (n: usize) {
        if self.pos <= self.data.len() {
            self.data.len() - self.pos
        } else {
            0
        }
    }

    fn write_record(record: &Record, out: &mut Vec<u8>) -> (r: Result<(), ParserError>) {
        let bytes = record.as_bytes();
        let mut i: usize = 0;
        while i < bytes.len()
            invariant
                0 <= i <= bytes@.len(),
                out@ == old(out)@ + bytes@.take(i as int),
            decreases bytes@.len() - i,
        {
            out.push(bytes[i]);
            i = i + 1;
            proof {
                assert(out@ =~= old(out)@ + bytes@.take(i as int));
            }
        }
        proof {
            assert(bytes@.take(bytes@.len() as int) =~= bytes@);
        }
        Ok(())
    }

    fn write_header(out: &mut Vec<u8>) -> (r: Result<(), ParserError>) {
        proof {
            assert(out@ =~= old(out)@ + seq![]);
        }
        Ok(())
    }
}

// ---------------------------------------------------------------------------
// Reading back what was written
// ---------------------------------------------------------------------------

/// A record whose body fits the 32-bit size field.
pub open spec fn bin_fits(r: RecordView) -> bool {
    encode_utf8(r.description).len() + BODY_FIXED_LEN <= u32::MAX
}

/// The body of a record reads back as the record.
#[verifier::spinoff_prover]
#[verifier::rlimit(40)]
pub proof fn lemma_decode_body_roundtrip(r: RecordView)
    requires
        bin_fits(r),
    ensures
        spec_body(r).len() == BODY_FIXED_LEN + encode_utf8(r.description).len(),
        spec_decode_body(spec_body(r)) == Ok::<RecordView, ParserErrorView>(r),
{
    let desc = encode_utf8(r.description);
    let body = spec_body(r);
    let dl = desc.len() as u32;
    assert(body.subrange(0, 8) =~= u64_be(r.id));
    assert(body[8] == r.tx_type.spec_byte());
    assert(body.subrange(9, 17) =~= u64_be(r.from_user_id));
    assert(body.subrange(17, 25) =~= u64_be(r.to_user_id));
    assert(body.subrange(25, 33) =~= u64_be(r.amount as u64));
    assert(body.subrange(33, 41) =~= u64_be(r.timestamp));
    assert(body[41] == r.status.spec_byte());
    assert(body.subrange(42, 46) =~= u32_be(dl));
    assert(body.subrange(46, 46 + desc.len() as int) =~= desc);
    lemma_u64_be_roundtrip(r.id);
    lemma_u64_be_roundtrip(r.from_user_id);
    lemma_u64_be_roundtrip(r.to_user_id);
    lemma_u64_be_roundtrip(r.amount as u64);
    lemma_u64_be_roundtrip(r.timestamp);
    lemma_u32_be_roundtrip(dl);
    lemma_i64_bits_roundtrip(r.amount);
    encode_utf8_valid_utf8(r.description);
    encode_utf8_decode_utf8(r.description);
    assert(lossy_decoded(desc) == r.description);
    crate::record::lemma_tx_type_byte_roundtrip(r.tx_type, 0);
    crate::record::lemma_tx_status_byte_roundtrip(r.status, 0);
}

/// A complete record with the magic number reads as its body, whatever comes before or after.
proof fn lemma_bin_frame(body: Seq<u8>, before: Seq<u8>, after: Seq<u8>)
    requires
        body.len() <= u32::MAX,
    ensures
        ({
            let bytes = u32_be(MAGIC_HEADER) + u32_be(body.len() as u32) + body;
            let data = before + bytes + after;
            spec_bin_next(ParserBinView { data, pos: before.len() as int }) == (
                Some(spec_decode_body(body)),
                ParserBinView { data, pos: (before.len() + bytes.len()) as int },
            )
        }),
{
    reveal(spec_bin_next);
    let bytes = u32_be(MAGIC_HEADER) + u32_be(body.len() as u32) + body;
    let data = before + bytes + after;
    let p = before.len() as int;
    assert(data.subrange(p, p + 4) =~= u32_be(MAGIC_HEADER));
    assert(data.subrange(p + 4, p + 8) =~= u32_be(body.len() as u32));
    assert(data.subrange(p + 8, p + 8 + body.len()) =~= body);
    lemma_u32_be_roundtrip(MAGIC_HEADER);
    lemma_u32_be_roundtrip(body.len() as u32);
}

/// Reading a record back from its binary bytes gives the record and moves past them, whatever
/// comes before or after them.
pub proof fn lemma_bin_roundtrip(r: RecordView, before: Seq<u8>, after: Seq<u8>)
    requires
        bin_fits(r),
    ensures
        spec_bin_next(
            ParserBinView { data: before + spec_bin_bytes(r) + after, pos: before.len() as int },
        ) == (
            Some(Ok::<RecordView, ParserErrorView>(r)),
            ParserBinView {
                data: before + spec_bin_bytes(r) + after,
                pos: (before.len() + spec_bin_bytes(r).len()) as int,
            },
        ),
{
    lemma_decode_body_roundtrip(r);
    lemma_bin_frame(spec_body(r), before, after);
}

/// Reading the binary bytes of a list of records gives back the records, with no error, as
/// long as each body fits the 32-bit size field.
pub proof fn lemma_bin_read_back(rs: Seq<RecordView>, before: Seq<u8>)
    requires
        forall|i: int| 0 <= i < rs.len() ==> bin_fits(#[trigger] rs[i]),
    ensures
        parse_all::<ParserBin>(
            ParserBinView { data: before + encode_all::<ParserBin>(rs), pos: before.len() as int },
        ) == (rs, None::<ParserErrorView>),
    decreases rs.len(),
{
    let data = before + encode_all::<ParserBin>(rs);
    let s = ParserBinView { data, pos: before.len() as int };
    if rs.len() == 0 {
        reveal(spec_bin_next);
        assert(data =~= before);
    } else {
        let r = rs[0];
        let rest = rs.drop_first();
        let after = encode_all::<ParserBin>(rest);
        assert(data =~= before + spec_bin_bytes(r) + after);
        lemma_bin_roundtrip(r, before, after);
        assert forall|i: int| 0 <= i < rest.len() implies bin_fits(#[trigger] rest[i]) by {
            assert(rest[i] == rs[i + 1]);
        }
        lemma_bin_read_back(rest, before + spec_bin_bytes(r));
        assert((before + spec_bin_bytes(r)) + after =~= data);
        let s2 = ParserBinView { data, pos: (before.len() + spec_bin_bytes(r).len()) as int };
        assert(ParserBin::spec_next(s) == (Some(Ok::<RecordView, ParserErrorView>(r)), s2));
        assert(seq![r] + rest =~= rs);
    }
}

} // verus!
