use ypbank_parser::{Parser, ParserBin, Record, TxStatus, TxType};

/// Seconds since the Unix epoch of a UTC date and time.
fn utc_seconds(year: i32, month: time::Month, day: u8, h: u8, m: u8, s: u8, ms: u16) -> i64 {
    time::Date::from_calendar_date(year, month, day)
        .unwrap()
        .with_hms_milli(h, m, s, ms)
        .unwrap()
        .assume_utc()
        .unix_timestamp()
}

#[test]
fn bin_format_test_read_from() {
    let data = vec![
        89, 80, 66, 78, 0, 0, 0, 63, 0, 3, 141, 126, 164, 198, 128, 0, 0, 0, 0, 0, 0, 0, 0, 0, 0,
        127, 255, 255, 255, 255, 255, 255, 255, 0, 0, 0, 0, 0, 0, 0, 100, 0, 0, 1, 124, 56, 148,
        250, 96, 1, 0, 0, 0, 17, 34, 82, 101, 99, 111, 114, 100, 32, 110, 117, 109, 98, 101, 114,
        32, 49, 34, 89, 80, 66, 78, 0, 0, 0, 63, 0, 3, 141, 126, 164, 198, 128, 1, 1, 127, 255,
        255, 255, 255, 255, 255, 255, 127, 255, 255, 255, 255, 255, 255, 255, 0, 0, 0, 0, 0, 0, 0,
        200, 0, 0, 1, 124, 56, 149, 228, 192, 2, 0, 0, 0, 17, 34, 82, 101, 99, 111, 114, 100, 32,
        110, 117, 109, 98, 101, 114, 32, 50, 34,
    ];

    let mut parser = ParserBin::new(data);

    let tx_1 = parser.next().unwrap().unwrap();
    assert_eq!(tx_1.id, 1000000000000000);
    assert_eq!(tx_1.tx_type, TxType::Deposit);
    assert_eq!(tx_1.from_user_id, 0);
    assert_eq!(tx_1.to_user_id, 9223372036854775807);
    assert_eq!(tx_1.amount, 100);
    assert_eq!(
        tx_1.timestamp,
        (utc_seconds(2021, time::Month::September, 30, 21, 21, 0, 0) as u64) * 1000
    );
    assert_eq!(tx_1.status, TxStatus::Failure);
    assert_eq!(tx_1.description, "\"Record number 1\"");

    let tx_2 = parser.next().unwrap().unwrap();
    assert_eq!(tx_2.id, 1000000000000001);
    assert_eq!(tx_2.tx_type, TxType::Transfer);
    assert_eq!(tx_2.from_user_id, 9223372036854775807);
    assert_eq!(tx_2.to_user_id, 9223372036854775807);
    assert_eq!(tx_2.amount, 200);
    assert_eq!(
        tx_2.timestamp,
        (utc_seconds(2021, time::Month::September, 30, 21, 22, 0, 0) as u64) * 1000
    );
    assert_eq!(tx_2.status, TxStatus::Pending);
    assert_eq!(tx_2.description, "\"Record number 2\"");
}

#[test]
fn bin_format_test_write_record() {
    let mut buffer = Vec::new();

    let record = Record::new(
        1000000000000000,
        TxType::Deposit,
        0,
        9223372036854775807,
        100,
        (utc_seconds(2021, time::Month::September, 30, 21, 21, 0, 0) as u64) * 1000,
        TxStatus::Failure,
        "\"Record number 1\"",
    );

    assert_eq!(ParserBin::write_record(&record, &mut buffer), Ok(()));

    assert_eq!(
        buffer.as_slice(),
        [
            89, 80, 66, 78, 0, 0, 0, 63, 0, 3, 141, 126, 164, 198, 128, 0, 0, 0, 0, 0, 0, 0, 0, 0,
            0, 127, 255, 255, 255, 255, 255, 255, 255, 0, 0, 0, 0, 0, 0, 0, 100, 0, 0, 1, 124, 56,
            148, 250, 96, 1, 0, 0, 0, 17, 34, 82, 101, 99, 111, 114, 100, 32, 110, 117, 109, 98,
            101, 114, 32, 49, 34,
        ],
    )
}

#[test]
fn test_record_bin_as_bytes() {
    let data = Record::new(
        1000000000000000,
        TxType::Transfer,
        1001,
        455001,
        545,
        utc_seconds(2024, time::Month::February, 22, 1, 2, 3, 500) as u64,
        TxStatus::Success,
        "\"transfer for user 455001\"",
    );
    assert_eq!(
        data.as_bytes(),
        [
            89, 80, 66, 78, 0, 0, 0, 72, 0, 3, 141, 126, 164, 198, 128, 0, 1, 0, 0, 0, 0, 0, 0, 3,
            233, 0, 0, 0, 0, 0, 6, 241, 89, 0, 0, 0, 0, 0, 0, 2, 33, 0, 0, 0, 0, 101, 214, 157, 11,
            0, 0, 0, 0, 26, 34, 116, 114, 97, 110, 115, 102, 101, 114, 32, 102, 111, 114, 32, 117,
            115, 101, 114, 32, 52, 53, 53, 48, 48, 49, 34
        ]
    )
}
