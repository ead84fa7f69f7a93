//! The transaction record and its kinds and statuses.
use vstd::prelude::*;

use crate::errors::{ParseRecordError, ParserError, ParserErrorView};
use crate::text::{ascii_lowercase, chars_of, lowered, range_eq, to_lowercase};
use vstd::utf8::is_ascii_chars;

verus! {

/// Identifier of a transaction or of an account.
pub type EntityID = u64;

/// Kind of a bank transaction.
#[derive(Debug, PartialEq, Eq, Structural, Clone, Copy)]
pub enum TxType {
    /// Money enters an account (the sender is `0`).
    Deposit,
    /// Money moves between two accounts.
    Transfer,
    /// Money leaves an account (the receiver is `0`).
    Withdrawal,
}

/// Status of a bank transaction.
#[derive(Debug, PartialEq, Eq, Structural, Clone, Copy)]
pub enum TxStatus {
    /// The transaction went through.
    Success,
    /// The transaction failed.
    Failure,
    /// The transaction is still being processed.
    Pending,
}

impl TxType {
    /// The upper-case name under which the kind is written in the text formats.
    pub open spec fn spec_name(self) -> Seq<char> {
        match self {
            TxType::Deposit => "DEPOSIT"@,
            TxType::Transfer => "TRANSFER"@,
            TxType::Withdrawal => "WITHDRAWAL"@,
        }
    }

    /// The lower-case name against which a lower-cased input is matched.
    pub open spec fn spec_lower_name(self) -> Seq<char> {
        match self {
            TxType::Deposit => "deposit"@,
            TxType::Transfer => "transfer"@,
            TxType::Withdrawal => "withdrawal"@,
        }
    }

    /// The kind whose lower-case name is `lower`, if any.
    pub open spec fn spec_from_lower(lower: Seq<char>) -> Option<TxType> {
        if lower == "deposit"@ {
            Some(TxType::Deposit)
        } else if lower == "transfer"@ {
            Some(TxType::Transfer)
        } else if lower == "withdrawal"@ {
            Some(TxType::Withdrawal)
        } else {
            None
        }
    }

    /// The number that stands for the kind in the binary format.
    pub open spec fn spec_byte(self) -> u8 {
        match self {
            TxType::Deposit => 0,
            TxType::Transfer => 1,
            TxType::Withdrawal => 2,
        }
    }

    /// The kind that the number `b` stands for in the binary format, if any.
    pub open spec fn spec_from_byte(b: u8) -> Option<TxType> {
        if b == 0 {
            Some(TxType::Deposit)
        } else if b == 1 {
            Some(TxType::Transfer)
        } else if b == 2 {
            Some(TxType::Withdrawal)
        } else {
            None
        }
    }

    /// The upper-case name of the kind.
    pub fn as_str(&self) -> (s: &'static str)
        ensures
            s@ == self.spec_name(),
    {
        match self {
            TxType::Deposit => "DEPOSIT",
            TxType::Transfer => "TRANSFER",
            TxType::Withdrawal => "WITHDRAWAL",
        }
    }

    /// The kind whose lower-case name is `lower` (the input already lower-cased).
    pub fn from_lowercase(lower: &str) -> (r: Result<TxType, ParserError>)
        ensures
            match TxType::spec_from_lower(lower@) {
                Some(t) => r == Ok::<TxType, ParserError>(t),
                None => r matches Err(e) && e@ == ParserErrorView::ParseRecord(
                    ParseRecordError::UnknownTxType,
                ),
            },
    {
        let v = chars_of(lower);
        proof {
            assert(v@.subrange(0, v@.len() as int) =~= v@);
        }
        if range_eq(&v, 0, v.len(), &chars_of("deposit")) {
            Ok(TxType::Deposit)
        } else if range_eq(&v, 0, v.len(), &chars_of("transfer")) {
            Ok(TxType::Transfer)
        } else if range_eq(&v, 0, v.len(), &chars_of("withdrawal")) {
            Ok(TxType::Withdrawal)
        } else {
            Err(ParserError::from(ParseRecordError::UnknownTxType))
        }
    }

    /// The kind named by `s`, compared without regard to case: the name is lower-cased by
    /// `str::to_lowercase` and matched against `deposit`, `transfer` and `withdrawal`.
    pub fn try_from_str(s: &str) -> (r: Result<TxType, ParserError>)
        ensures
            match TxType::spec_from_lower(lowered(s@)) {
                Some(t) => r == Ok::<TxType, ParserError>(t),
                None => r matches Err(e) && e@ == ParserErrorView::ParseRecord(
                    ParseRecordError::UnknownTxType,
                ),
            },
    {
        let lower = to_lowercase(s);
        TxType::from_lowercase(lower.as_str())
    }

    /// The number that stands for the kind in the binary format.
    pub fn to_byte(self) -> (b: u8)
        ensures
            b == self.spec_byte(),
    {
        match self {
            TxType::Deposit => 0,
            TxType::Transfer => 1,
            TxType::Withdrawal => 2,
        }
    }

    /// The kind that the number `b` stands for in the binary format.
    pub fn try_from_byte(b: u8) -> (r: Result<TxType, ParseRecordError>)
        ensures
            match TxType::spec_from_byte(b) {
                Some(t) => r == Ok::<TxType, ParseRecordError>(t),
                None => r == Err::<TxType, ParseRecordError>(ParseRecordError::UnknownTxType),
            },
    {
        match b {
            0 => Ok(TxType::Deposit),
            1 => Ok(TxType::Transfer),
            2 => Ok(TxType::Withdrawal),
            _ => Err(ParseRecordError::UnknownTxType),
        }
    }
}

impl TxStatus {
    /// The upper-case name under which the status is written in the text formats.
    pub open spec fn spec_name(self) -> Seq<char> {
        match self {
            TxStatus::Success => "SUCCESS"@,
            TxStatus::Failure => "FAILURE"@,
            TxStatus::Pending => "PENDING"@,
        }
    }

    /// The lower-case name against which a lower-cased input is matched.
    pub open spec fn spec_lower_name(self) -> Seq<char> {
        match self {
            TxStatus::Success => "success"@,
            TxStatus::Failure => "failure"@,
            TxStatus::Pending => "pending"@,
        }
    }

    /// The status whose lower-case name is `lower`, if any.
    pub open spec fn spec_from_lower(lower: Seq<char>) -> Option<TxStatus> {
        if lower == "success"@ {
            Some(TxStatus::Success)
        } else if lower == "failure"@ {
            Some(TxStatus::Failure)
        } else if lower == "pending"@ {
            Some(TxStatus::Pending)
        } else {
            None
        }
    }

    /// The number that stands for the status in the binary format.
    pub open spec fn spec_byte(self) -> u8 {
        match self {
            TxStatus::Success => 0,
            TxStatus::Failure => 1,
            TxStatus::Pending => 2,
        }
    }

    /// The status that the number `b` stands for in the binary format, if any.
    pub open spec fn spec_from_byte(b: u8) -> Option<TxStatus> {
        if b == 0 {
            Some(TxStatus::Success)
        } else if b == 1 {
            Some(TxStatus::Failure)
        } else if b == 2 {
            Some(TxStatus::Pending)
        } else {
            None
        }
    }

    /// The upper-case name of the status.
    pub fn as_str(&self) -> (s: &'static str)
        ensures
            s@ == self.spec_name(),
    {
        match self {
            TxStatus::Success => "SUCCESS",
            TxStatus::Failure => "FAILURE",
            TxStatus::Pending => "PENDING",
        }
    }

    /// The status whose lower-case name is `lower` (the input already lower-cased).
    pub fn from_lowercase(lower: &str) -> (r: Result<TxStatus, ParserError>)
        ensures
            match TxStatus::spec_from_lower(lower@) {
                Some(t) => r == Ok::<TxStatus, ParserError>(t),
                None => r matches Err(e) && e@ == ParserErrorView::ParseRecord(
                    ParseRecordError::UnknownStatus,
                ),
            },
    {
        let v = chars_of(lower);
        proof {
            assert(v@.subrange(0, v@.len() as int) =~= v@);
        }
        if range_eq(&v, 0, v.len(), &chars_of("success")) {
            Ok(TxStatus::Success)
        } else if range_eq(&v, 0, v.len(), &chars_of("failure")) {
            Ok(TxStatus::Failure)
        } else if range_eq(&v, 0, v.len(), &chars_of("pending")) {
            Ok(TxStatus::Pending)
        } else {
            Err(ParserError::from(ParseRecordError::UnknownStatus))
        }
    }

    /// The status named by `s`, compared without regard to case: the name is lower-cased by
    /// `str::to_lowercase` and matched against `success`, `failure` and `pending`.
    pub fn try_from_str(s: &str) -> (r: Result<TxStatus, ParserError>)
        ensures
            match TxStatus::spec_from_lower(lowered(s@)) {
                Some(t) => r == Ok::<TxStatus, ParserError>(t),
                None => r matches Err(e) && e@ == ParserErrorView::ParseRecord(
                    ParseRecordError::UnknownStatus,
                ),
            },
    {
        let lower = to_lowercase(s);
        TxStatus::from_lowercase(lower.as_str())
    }

    /// The number that stands for the status in the binary format.
    pub fn to_byte(self) -> (b: u8)
        ensures
            b == self.spec_byte(),
    {
        match self {
            TxStatus::Success => 0,
            TxStatus::Failure => 1,
            TxStatus::Pending => 2,
        }
    }

    /// The status that the number `b` stands for in the binary format.
    pub fn try_from_byte(b: u8) -> (r: Result<TxStatus, ParseRecordError>)
        ensures
            match TxStatus::spec_from_byte(b) {
                Some(t) => r == Ok::<TxStatus, ParseRecordError>(t),
                None => r == Err::<TxStatus, ParseRecordError>(ParseRecordError::UnknownStatus),
            },
    {
        match b {
            0 => Ok(TxStatus::Success),
            1 => Ok(TxStatus::Failure),
            2 => Ok(TxStatus::Pending),
            _ => Err(ParseRecordError::UnknownStatus),
        }
    }
}

/// A bank transaction.
#[derive(Debug, PartialEq, Eq, Clone)]
pub struct Record {
    /// Identifier of the transaction.
    pub id: EntityID,
    /// Kind of the transaction.
    pub tx_type: TxType,
    /// Account the money leaves; `0` for a deposit.
    pub from_user_id: EntityID,
    /// Account the money enters; `0` for a withdrawal.
    pub to_user_id: EntityID,
    /// Amount in the smallest unit of money (cents).
    pub amount: i64,
    /// When the transaction was made, in milliseconds since the Unix epoch.
    pub timestamp: u64,
    /// Status of the transaction.
    pub status: TxStatus,
    /// Free text about the transaction.
    pub description: String,
}

/// The mathematical value of a [`Record`]: its description as a character sequence.
pub struct RecordView {
    pub id: u64,
    pub tx_type: TxType,
    pub from_user_id: u64,
    pub to_user_id: u64,
    pub amount: i64,
    pub timestamp: u64,
    pub status: TxStatus,
    pub description: Seq<char>,
}

impl View for Record {
    type V = RecordView;

    open spec fn view(&self) -> RecordView {
        RecordView {
            id: self.id,
            tx_type: self.tx_type,
            from_user_id: self.from_user_id,
            to_user_id: self.to_user_id,
            amount: self.amount,
            timestamp: self.timestamp,
            status: self.status,
            description: self.description@,
        }
    }
}

impl Record {
    /// A record with the given fields.
    pub fn new(
        id: EntityID,
        tx_type: TxType,
        from_user_id: EntityID,
        to_user_id: EntityID,
        amount: i64,
        timestamp: u64,
        status: TxStatus,
        description: &str,
    ) -> (r: Self)
        ensures
            r@ == (RecordView {
                id,
                tx_type,
                from_user_id,
                to_user_id,
                amount,
                timestamp,
                status,
                description: description@,
            }),
    {
        Record {
            id,
            tx_type,
            from_user_id,
            to_user_id,
            amount,
            timestamp,
            status,
            description: description.to_owned(),
        }
    }

    /// Whether the two records hold the same fields.
    pub fn same_as(&self, other: &Record) -> (r: bool)
        ensures
            r == (self@ == other@),
    {
        self.id == other.id && self.tx_type == other.tx_type && self.from_user_id
            == other.from_user_id && self.to_user_id == other.to_user_id && self.amount
            == other.amount && self.timestamp == other.timestamp && self.status == other.status
            && self.description == other.description
    }
}

/// Reading back the name of a kind gives the kind.
pub proof fn lemma_tx_type_name_roundtrip(t: TxType)
    ensures
        TxType::spec_from_lower(lowered(t.spec_name())) == Some(t),
{
    reveal_strlit("DEPOSIT");
    reveal_strlit("TRANSFER");
    reveal_strlit("WITHDRAWAL");
    reveal_strlit("deposit");
    reveal_strlit("transfer");
    reveal_strlit("withdrawal");
    assert(is_ascii_chars("DEPOSIT"@));
    assert(is_ascii_chars("TRANSFER"@));
    assert(is_ascii_chars("WITHDRAWAL"@));
    assert(ascii_lowercase("DEPOSIT"@) =~= "deposit"@);
    assert(ascii_lowercase("TRANSFER"@) =~= "transfer"@);
    assert(ascii_lowercase("WITHDRAWAL"@) =~= "withdrawal"@);
    assert("deposit"@ != "transfer"@);
    assert("deposit"@ != "withdrawal"@);
    assert("transfer"@ != "withdrawal"@);
}

/// Reading back the name of a status gives the status.
pub proof fn lemma_tx_status_name_roundtrip(t: TxStatus)
    ensures
        TxStatus::spec_from_lower(lowered(t.spec_name())) == Some(t),
{
    reveal_strlit("SUCCESS");
    reveal_strlit("FAILURE");
    reveal_strlit("PENDING");
    reveal_strlit("success");
    reveal_strlit("failure");
    reveal_strlit("pending");
    assert(is_ascii_chars("SUCCESS"@));
    assert(is_ascii_chars("FAILURE"@));
    assert(is_ascii_chars("PENDING"@));
    assert(ascii_lowercase("SUCCESS"@) =~= "success"@);
    assert(ascii_lowercase("FAILURE"@) =~= "failure"@);
    assert(ascii_lowercase("PENDING"@) =~= "pending"@);
    assert("success"@[0] != "failure"@[0]);
    assert("success"@[0] != "pending"@[0]);
    assert("failure"@[0] != "pending"@[0]);
}

/// The binary number of a kind reads back as the kind, and every number that reads as a kind
/// is that kind's number.
pub proof fn lemma_tx_type_byte_roundtrip(t: TxType, b: u8)
    ensures
        TxType::spec_from_byte(t.spec_byte()) == Some(t),
        TxType::spec_from_byte(b) matches Some(u) ==> u.spec_byte() == b,
{
}

/// The binary number of a status reads back as the status, and every number that reads as a
/// status is that status's number.
pub proof fn lemma_tx_status_byte_roundtrip(t: TxStatus, b: u8)
    ensures
        TxStatus::spec_from_byte(t.spec_byte()) == Some(t),
        TxStatus::spec_from_byte(b) matches Some(u) ==> u.spec_byte() == b,
{
}

} // verus!
