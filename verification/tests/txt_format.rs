use ypbank_parser::{Parser, ParserError, ParserTxt, Record, TxStatus, TxType};

/// Seconds since the Unix epoch of a UTC date and time.
fn utc_seconds(year: i32, month: time::Month, day: u8, h: u8, m: u8, s: u8) -> i64 {
    time::Date::from_calendar_date(year, month, day)
        .unwrap()
        .with_hms(h, m, s)
        .unwrap()
        .assume_utc()
        .unix_timestamp()
}

#[test]
fn test_parse() {
    let data = b"";

    assert!(matches!(
        ParserTxt::read_from(data.to_vec()),
        Err(ParserError::EmptyFile)
    ));

    let data = r#"# Record 1 (DEPOSIT)
TX_TYPE: DEPOSIT
TO_USER_ID: 9223372036854775807
FROM_USER_ID: 0
TIMESTAMP: 1633036860000
DESCRIPTION: "Record number 1"
TX_ID: 1000000000000000
AMOUNT: 100
STATUS: FAILURE

# Record 2 (TRANSFER)
DESCRIPTION: "Record number 2"
TIMESTAMP: 1633036920000
STATUS: PENDING
AMOUNT: 200
TX_ID: 1000000000000001
TX_TYPE: TRANSFER
FROM_USER_ID: 9223372036854775807
TO_USER_ID: 9223372036854775807

"#;

    let mut parser = ParserTxt::read_from(data.as_bytes().to_vec()).unwrap();

    let tx_1 = parser.next().unwrap().unwrap();
    assert_eq!(tx_1.id, 1000000000000000);
    assert_eq!(tx_1.tx_type, TxType::Deposit);
    assert_eq!(tx_1.from_user_id, 0);
    assert_eq!(tx_1.to_user_id, 9223372036854775807);
    assert_eq!(tx_1.amount, 100);
    assert_eq!(
        tx_1.timestamp,
        (utc_seconds(2021, time::Month::September, 30, 21, 21, 0) as u64) * 1000
    );
    assert_eq!(tx_1.status, TxStatus::Failure);
    assert_eq!(tx_1.description, "\"Record number 1\"");

    let tx_2 = parser.next().unwrap().unwrap();
    assert_eq!(tx_2.id, 1000000000000001);
    assert_eq!(tx_2.tx_type, TxType::Transfer);
    assert_eq!(tx_2.from_user_id, 9223372036854775807);
    assert_eq!(tx_2.to_user_id, 9223372036854775807);
    assert_eq!(tx_2.amount, 200);
    assert_eq!(
        tx_2.timestamp,
        (utc_seconds(2021, time::Month::September, 30, 21, 22, 0) as u64) * 1000
    );
    assert_eq!(tx_2.status, TxStatus::Pending);
    assert_eq!(tx_2.description, "\"Record number 2\"");
}

#[test]
fn txt_format_test_write_record() {
    let mut buffer = Vec::new();

    let record = Record::new(
        1000000000000000,
        TxType::Deposit,
        0,
        9223372036854775807,
        100,
        (utc_seconds(2021, time::Month::September, 30, 21, 21, 0) as u64) * 1000,
        TxStatus::Failure,
        "\"Record number 1\"",
    );

    assert_eq!(ParserTxt::write_record(&record, &mut buffer), Ok(()));

    assert_eq!(
        String::from_utf8(buffer).unwrap(),
        r#"TX_ID: 1000000000000000
TX_TYPE: DEPOSIT
FROM_USER_ID: 0
TO_USER_ID: 9223372036854775807
AMOUNT: 100
TIMESTAMP: 1633036860000
STATUS: FAILURE
DESCRIPTION: "Record number 1"

"#
    );
}

#[test]
fn test_record_txt_as_txt_record() {
    assert_eq!(
        Record::new(
            1000000000000000,
            TxType::Deposit,
            0,
            9223372036854775807,
            100,
            (utc_seconds(2021, time::Month::September, 30, 21, 21, 0) as u64) * 1000,
            TxStatus::Failure,
            "\"Record number 1\"",
        )
        .as_txt_record(),
        r#"TX_ID: 1000000000000000
TX_TYPE: DEPOSIT
FROM_USER_ID: 0
TO_USER_ID: 9223372036854775807
AMOUNT: 100
TIMESTAMP: 1633036860000
STATUS: FAILURE
DESCRIPTION: "Record number 1"

"#
    )
}
