use ypbank_parser::csv_format::HEADER_FIELDS;
use ypbank_parser::{Parser, ParserCsv, ParserError, Record, TxStatus, TxType};

/// Seconds since the Unix epoch of a UTC date and time.
fn utc_seconds(year: i32, month: time::Month, day: u8, h: u8, m: u8, s: u8) -> i64 {
    time::Date::from_calendar_date(year, month, day)
        .unwrap()
        .with_hms(h, m, s)
        .unwrap()
        .assume_utc()
        .unix_timestamp()
}

#[test]
fn test_read_from_empty_file() {
    let data = b"";
    assert!(matches!(
        ParserCsv::read_from(data.to_vec()),
        Err(ParserError::EmptyFile)
    ));
}

#[test]
fn test_read_from_empty_header() {
    let data = r#"1000000000000000,DEPOSIT,0,9223372036854775807,100,1633036860000,FAILURE,"Record number 1"#;
    assert!(matches!(
        ParserCsv::read_from(data.as_bytes().to_vec()),
        Err(ParserError::RequiredFieldMissing)
    ));
}

#[test]
fn csv_format_test_read_from() -> Result<(), ParserError> {
    let data = r#"TX_ID,TX_TYPE,FROM_USER_ID,TO_USER_ID,AMOUNT,TIMESTAMP,STATUS,DESCRIPTION
1000000000000000,DEPOSIT,0,9223372036854775807,100,1633036860000,FAILURE,"Record number 1"
1000000000000001,TRANSFER,9223372036854775807,9223372036854775807,200,1633036920000,PENDING,"Record number 2"
"#;

    let mut parser = ParserCsv::read_from(data.as_bytes().to_vec())?;

    let tx_1 = parser.next().ok_or(ParserError::EmptyFile)??;
    assert_eq!(tx_1.id, 1000000000000000);
    assert_eq!(tx_1.tx_type, TxType::Deposit);
    assert_eq!(tx_1.from_user_id, 0);
    assert_eq!(tx_1.to_user_id, 9223372036854775807);
    assert_eq!(tx_1.amount, 100);
    assert_eq!(
        tx_1.timestamp,
        (utc_seconds(2021, time::Month::September, 30, 21, 21, 0) as u64) * 1000
    );
    assert_eq!(tx_1.status, TxStatus::Failure);
    assert_eq!(tx_1.description, "\"Record number 1\"");

    let tx_2 = parser.next().ok_or(ParserError::EmptyFile)??;
    assert_eq!(tx_2.id, 1000000000000001);
    assert_eq!(tx_2.tx_type, TxType::Transfer);
    assert_eq!(tx_2.from_user_id, 9223372036854775807);
    assert_eq!(tx_2.to_user_id, 9223372036854775807);
    assert_eq!(tx_2.amount, 200);
    assert_eq!(
        tx_2.timestamp,
        (utc_seconds(2021, time::Month::September, 30, 21, 22, 0) as u64) * 1000
    );
    assert_eq!(tx_2.status, TxStatus::Pending);
    assert_eq!(tx_2.description, "\"Record number 2\"");

    Ok(())
}

#[test]
fn test_record_as_csv() {
    assert_eq!(
        Record::new(
            1000000000000000,
            TxType::Deposit,
            0,
            9223372036854775807,
            100,
            (utc_seconds(2021, time::Month::September, 30, 21, 21, 0) as u64) * 1000,
            TxStatus::Failure,
            "\"Record number 1\"",
        )
        .as_csv_record(),
        "1000000000000000,DEPOSIT,0,9223372036854775807,100,1633036860000,FAILURE,\"Record number 1\"\n"
    );
}

#[test]
fn test_write_header() -> Result<(), ParserError> {
    let mut buffer = Vec::new();

    assert_eq!(ParserCsv::write_header(&mut buffer), Ok(()));

    assert_eq!(
        String::from_utf8(buffer).map_err(|e| ParserError::Utf8Error(e.to_string()))?,
        HEADER_FIELDS
    );
    Ok(())
}

#[test]
fn csv_format_test_write_record() -> Result<(), ParserError> {
    let mut buffer = Vec::new();

    let record = Record::new(
        1000000000000000,
        TxType::Deposit,
        0,
        9223372036854775807,
        100,
        (utc_seconds(2021, time::Month::September, 30, 21, 21, 0) as u64) * 1000,
        TxStatus::Failure,
        "\"Record number 1\"",
    );

    assert_eq!(ParserCsv::write_record(&record, &mut buffer), Ok(()));

    assert_eq!(
        String::from_utf8(buffer).map_err(|e| ParserError::Utf8Error(e.to_string()))?,
        "1000000000000000,DEPOSIT,0,9223372036854775807,100,1633036860000,FAILURE,\"Record number 1\"\n"
    );

    Ok(())
}
