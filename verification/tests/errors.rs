use ypbank_parser::{ParseRecordError, Parser, ParserBin, ParserCsv, ParserError, ParserTxt, Record, TxStatus, TxType};

const HEADER: &str = "TX_ID,TX_TYPE,FROM_USER_ID,TO_USER_ID,AMOUNT,TIMESTAMP,STATUS,DESCRIPTION\n";

fn first_csv(line: &str) -> Option<Result<Record, ParserError>> {
    let data = format!("{}{}", HEADER, line);
    ParserCsv::read_from(data.into_bytes()).unwrap().next()
}

fn bin_of(r: &Record) -> Vec<u8> {
    r.as_bytes()
}

#[test]
fn csv_number_errors_carry_the_reason() {
    assert_eq!(
        first_csv("x,DEPOSIT,0,0,0,0,SUCCESS,d\n"),
        Some(Err(ParserError::ParseIntError("invalid digit found in string".to_string())))
    );
    assert_eq!(
        first_csv(",DEPOSIT,0,0,0,0,SUCCESS,d\n"),
        Some(Err(ParserError::ParseIntError(
            "cannot parse integer from empty string".to_string()
        )))
    );
    assert_eq!(
        first_csv("18446744073709551616,DEPOSIT,0,0,0,0,SUCCESS,d\n"),
        Some(Err(ParserError::ParseIntError(
            "number too large to fit in target type".to_string()
        )))
    );
    assert_eq!(
        first_csv("1,DEPOSIT,0,0,-9223372036854775809,0,SUCCESS,d\n"),
        Some(Err(ParserError::ParseIntError(
            "number too small to fit in target type".to_string()
        )))
    );
    assert_eq!(
        first_csv("-1,DEPOSIT,0,0,0,0,SUCCESS,d\n"),
        Some(Err(ParserError::ParseIntError("invalid digit found in string".to_string())))
    );
    // A non-digit right after the largest value is reported as a non-digit.
    assert_eq!(
        first_csv("18446744073709551615x,DEPOSIT,0,0,0,0,SUCCESS,d\n"),
        Some(Err(ParserError::ParseIntError("invalid digit found in string".to_string())))
    );
    // An overflow is reported where it happens, before a later non-digit.
    assert_eq!(
        first_csv("184467440737095516150x,DEPOSIT,0,0,0,0,SUCCESS,d\n"),
        Some(Err(ParserError::ParseIntError(
            "number too large to fit in target type".to_string()
        )))
    );
    let r = first_csv("+7,DEPOSIT,0,0,-9223372036854775808,+3,SUCCESS,d\n").unwrap().unwrap();
    assert_eq!((r.id, r.amount, r.timestamp), (7, i64::MIN, 3));
}

#[test]
fn csv_missing_fields_and_columns() {
    assert_eq!(
        first_csv("1,DEPOSIT,0,0,0,0,SUCCESS\n"),
        Some(Err(ParserError::FieldNotFound("field at index 7".to_string())))
    );
    let data = "tx_id,amount\n1,5\n";
    let mut p = ParserCsv::read_from(data.as_bytes().to_vec()).unwrap();
    assert_eq!(
        p.next(),
        Some(Err(ParserError::FieldNotFound("index not found".to_string())))
    );
    assert_eq!(
        first_csv("1,REFUND,0,0,0,0,SUCCESS,d\n"),
        Some(Err(ParserError::ParseRecord(ParseRecordError::UnknownTxType)))
    );
    assert_eq!(
        first_csv("1,DEPOSIT,0,0,0,0,DONE,d\n"),
        Some(Err(ParserError::ParseRecord(ParseRecordError::UnknownStatus)))
    );
}

#[test]
fn csv_columns_in_any_order_and_case() {
    let data = " Description , status,TIMESTAMP,amount,to_user_id,FROM_USER_ID,tx_type,Tx_Id \n\
                \n\
                hello,pending,9,-4,3,2,withdrawal,1\u{3000}\n";
    let mut p = ParserCsv::read_from(data.as_bytes().to_vec()).unwrap();
    let r = p.next().unwrap().unwrap();
    assert_eq!(
        r,
        Record::new(1, TxType::Withdrawal, 2, 3, -4, 9, TxStatus::Pending, "hello")
    );
    assert!(p.next().is_none());
}

#[test]
fn csv_description_keeps_its_commas() {
    assert_eq!(
        first_csv("1,DEPOSIT,0,2,5,0,SUCCESS,\"a, b\"\n"),
        Some(Ok(Record::new(1, TxType::Deposit, 0, 2, 5, 0, TxStatus::Success, "\"a, b\"")))
    );
    let r = Record::new(7, TxType::Transfer, 1, 2, -3, 4, TxStatus::Pending, "\"x,,y, z\"");
    let mut data = Vec::new();
    ParserCsv::write_header(&mut data).unwrap();
    ParserCsv::write_record(&r, &mut data).unwrap();
    let mut p = ParserCsv::read_from(data).unwrap();
    assert_eq!(p.next(), Some(Ok(r)));
    assert_eq!(p.next(), None);
}

#[test]
fn csv_new_reads_no_header_and_yields_nothing() {
    let mut p = ParserCsv::new(format!("{}1,DEPOSIT,0,0,0,0,SUCCESS,d\n", HEADER).into_bytes());
    assert!(p.next().is_none());
}

#[test]
fn csv_line_that_is_not_utf8_is_an_io_error() {
    let mut data = HEADER.as_bytes().to_vec();
    data.extend_from_slice(b"1,DEPOSIT,0,0,0,0,SUCCESS,\xff\n2,DEPOSIT,0,0,0,0,SUCCESS,ok\n");
    let mut p = ParserCsv::read_from(data).unwrap();
    assert_eq!(
        p.next(),
        Some(Err(ParserError::IoError("stream did not contain valid UTF-8".to_string())))
    );
    assert_eq!(p.next().unwrap().unwrap().description, "ok");
    let bad_header = b"TX_ID\xfe\n".to_vec();
    assert!(matches!(ParserCsv::read_from(bad_header), Err(ParserError::IoError(_))));
}

#[test]
fn bin_errors() {
    let good = bin_of(&Record::new(1, TxType::Deposit, 0, 1, 2, 3, TxStatus::Success, "abc"));

    let mut p = ParserBin::new(b"YPBX\0\0\0\0".to_vec());
    assert_eq!(p.next(), Some(Err(ParserError::InvalidMagicNumber)));

    let mut p = ParserBin::new(good[..6].to_vec());
    assert_eq!(p.next(), Some(Err(ParserError::UnexpectedEof)));

    let mut p = ParserBin::new(good[..good.len() - 1].to_vec());
    assert_eq!(p.next(), Some(Err(ParserError::UnexpectedEof)));
    assert_eq!(p.next(), None);

    // A body shorter than its fixed fields.
    let mut short = b"YPBN\0\0\0\x02".to_vec();
    short.extend_from_slice(&[0, 0]);
    let mut p = ParserBin::new(short);
    assert_eq!(p.next(), Some(Err(ParserError::InvalidRecordSize)));

    // A description length beyond the body.
    let mut long_desc = good.clone();
    long_desc[8 + 45] = 200;
    let mut p = ParserBin::new(long_desc);
    assert_eq!(p.next(), Some(Err(ParserError::InvalidRecordSize)));

    let mut bad_type = good.clone();
    bad_type[8 + 8] = 9;
    let mut p = ParserBin::new(bad_type);
    assert_eq!(
        p.next(),
        Some(Err(ParserError::ParseRecord(ParseRecordError::UnknownTxType)))
    );

    let mut bad_status = good.clone();
    bad_status[8 + 41] = 3;
    let mut p = ParserBin::new(bad_status);
    assert_eq!(
        p.next(),
        Some(Err(ParserError::ParseRecord(ParseRecordError::UnknownStatus)))
    );

    // Fewer than four bytes left end the input.
    let mut p = ParserBin::new(b"YPB".to_vec());
    assert_eq!(p.next(), None);
}

#[test]
fn bin_description_that_is_not_utf8_is_replaced() {
    let mut bytes = bin_of(&Record::new(1, TxType::Deposit, 0, 1, 2, 3, TxStatus::Success, "abc"));
    let n = bytes.len();
    bytes[n - 2] = 0xff;
    let r = ParserBin::new(bytes).next().unwrap().unwrap();
    assert_eq!(r.description, "a\u{fffd}c");
}

#[test]
fn bin_ignores_bytes_after_the_description() {
    let mut bytes = bin_of(&Record::new(1, TxType::Deposit, 0, 1, 2, 3, TxStatus::Success, "abc"));
    bytes[7] += 2;
    bytes.extend_from_slice(&[9, 9]);
    let mut p = ParserBin::new(bytes);
    assert_eq!(p.next().unwrap().unwrap().description, "abc");
    assert_eq!(p.next(), None);
}

#[test]
fn txt_errors_and_missing_fields() {
    let data = "title\nTX_ID: 1\nno colon here\n\n";
    let mut p = ParserTxt::read_from(data.as_bytes().to_vec()).unwrap();
    assert_eq!(p.next(), Some(Err(ParserError::InvalidLineFormat)));

    let data = "title\nTX_ID: 1\nTX_TYPE: DEPOSIT\n\n";
    let mut p = ParserTxt::read_from(data.as_bytes().to_vec()).unwrap();
    assert_eq!(p.next(), Some(Err(ParserError::FieldNotFound("FROM_USER_ID".to_string()))));
    assert_eq!(p.next(), None);

    let data = "# h\nTX_TYPE: DEPOSIT\n\n";
    let mut p = ParserTxt::read_from(data.as_bytes().to_vec()).unwrap();
    assert_eq!(p.next(), Some(Err(ParserError::FieldNotFound("TX_ID".to_string()))));
    assert_eq!(p.next(), None);

    let data = "title\nNOTE: only an unknown key\n";
    let mut p = ParserTxt::read_from(data.as_bytes().to_vec()).unwrap();
    assert_eq!(p.next(), Some(Err(ParserError::FieldNotFound("TX_ID".to_string()))));

    let data = "title\nTX_ID: one\nTX_TYPE: DEPOSIT\n\n";
    let mut p = ParserTxt::read_from(data.as_bytes().to_vec()).unwrap();
    assert_eq!(
        p.next(),
        Some(Err(ParserError::ParseIntError("invalid digit found in string".to_string())))
    );

    let data = b"title\nTX_ID: \xff\n\n".to_vec();
    let mut p = ParserTxt::read_from(data).unwrap();
    assert_eq!(
        p.next(),
        Some(Err(ParserError::IoError("stream did not contain valid UTF-8".to_string())))
    );

    assert!(matches!(ParserTxt::read_from(b"\xff\n".to_vec()), Err(ParserError::IoError(_))));
}

#[test]
fn txt_later_keys_replace_earlier_and_unknown_keys_are_ignored() {
    let data = "# title\n\
                TX_ID: 5\nTX_ID: 6\nTX_TYPE: transfer\nFROM_USER_ID: 1\nTO_USER_ID: 2\n\
                AMOUNT: -3\nTIMESTAMP: 4\nSTATUS: failure\nNOTE: ignored\n\
                # a comment\nDESCRIPTION:   a: b  \n\nTX_ID: 9\n";
    let mut p = ParserTxt::read_from(data.as_bytes().to_vec()).unwrap();
    assert_eq!(
        p.next().unwrap().unwrap(),
        Record::new(6, TxType::Transfer, 1, 2, -3, 4, TxStatus::Failure, "a: b")
    );
    assert_eq!(p.next(), Some(Err(ParserError::FieldNotFound("TX_TYPE".to_string()))));
    assert_eq!(p.next(), None);
}

#[test]
fn txt_blocks_without_keys_are_skipped() {
    let block = "TX_ID: 1\nTX_TYPE: DEPOSIT\nFROM_USER_ID: 0\nTO_USER_ID: 2\nAMOUNT: 5\n\
                 TIMESTAMP: 0\nSTATUS: SUCCESS\nDESCRIPTION: d\n";
    let data = format!("title\n\n\n{}\n\n\n# only a comment\n\n{}\n\n", block, block);
    let mut p = ParserTxt::read_from(data.into_bytes()).unwrap();
    let r = Record::new(1, TxType::Deposit, 0, 2, 5, 0, TxStatus::Success, "d");
    assert_eq!(p.next(), Some(Ok(r.clone())));
    assert_eq!(p.next(), Some(Ok(r)));
    assert_eq!(p.next(), None);
}

#[test]
fn empty_inputs() {
    assert!(matches!(ParserTxt::read_from(vec![]), Err(ParserError::EmptyFile)));
    assert!(matches!(ParserCsv::read_from(vec![]), Err(ParserError::EmptyFile)));
    assert!(ParserBin::read_from(vec![]).unwrap().next().is_none());
}

#[test]
fn displays_of_records() {
    let r = Record::new(2, TxType::Withdrawal, 3, 0, -50, 7, TxStatus::Pending, "atm");
    assert_eq!(
        ypbank_parser::csv_format::CsvDisplay(&r).to_string(),
        "2,WITHDRAWAL,3,0,-50,7,PENDING,atm\n"
    );
    assert_eq!(
        ypbank_parser::txt_format::TxtDisplay(&r).to_string(),
        "TX_ID: 2\nTX_TYPE: WITHDRAWAL\nFROM_USER_ID: 3\nTO_USER_ID: 0\nAMOUNT: -50\n\
         TIMESTAMP: 7\nSTATUS: PENDING\nDESCRIPTION: atm\n\n"
    );
}
