use ypbank_parser::parser::FormatKind;
use ypbank_parser::types::{convert_to, write_all_from_iter};
use ypbank_parser::{
    Comparison, ParseRecordError, Parser, ParserBin, ParserByType, ParserCsv, ParserError,
    ParserTxt, Record, TxStatus, TxType,
};

fn sample_records() -> Vec<Record> {
    vec![
        Record::new(1, TxType::Deposit, 0, 42, 1500, 1633036860000, TxStatus::Success, "salary"),
        Record::new(
            u64::MAX,
            TxType::Withdrawal,
            42,
            0,
            i64::MIN,
            0,
            TxStatus::Pending,
            "снятие наличных: банкомат №7",
        ),
        Record::new(3, TxType::Transfer, 7, 8, -1, u64::MAX, TxStatus::Failure, ""),
    ]
}

fn read_all<P: Parser>(mut p: P) -> Vec<Record> {
    let mut out = Vec::new();
    while let Some(item) = p.next() {
        out.push(item.unwrap());
    }
    out
}

#[test]
fn bin_write_then_read_gives_records() {
    let records = sample_records();
    let mut bytes = Vec::new();
    for r in &records {
        ParserBin::write_record(r, &mut bytes).unwrap();
    }
    assert_eq!(read_all(ParserBin::read_from(bytes).unwrap()), records);
}

#[test]
fn csv_write_then_read_gives_records() {
    let records = sample_records();
    let mut bytes = Vec::new();
    ParserCsv::write_header(&mut bytes).unwrap();
    for r in &records {
        ParserCsv::write_record(r, &mut bytes).unwrap();
    }
    assert_eq!(read_all(ParserCsv::read_from(bytes).unwrap()), records);
}

#[test]
fn txt_write_then_read_gives_records_after_first_line() {
    let records = sample_records();
    let mut bytes = b"# exported records\n".to_vec();
    for r in &records {
        ParserTxt::write_record(r, &mut bytes).unwrap();
    }
    assert_eq!(read_all(ParserTxt::read_from(bytes).unwrap()), records);
}

#[test]
fn txt_reader_skips_the_first_line_of_its_input() {
    // The first line is taken as a title, so a block that starts the input loses its TX_ID.
    let mut bytes = Vec::new();
    ParserTxt::write_record(&sample_records()[0], &mut bytes).unwrap();
    let mut p = ParserTxt::read_from(bytes).unwrap();
    assert_eq!(p.next(), Some(Err(ParserError::FieldNotFound("TX_ID".to_string()))));
    assert!(p.next().is_none());
}

#[test]
fn convert_csv_to_bin_and_back() {
    let csv = "TX_ID,TX_TYPE,FROM_USER_ID,TO_USER_ID,AMOUNT,TIMESTAMP,STATUS,DESCRIPTION\n\
               1,deposit,0,5,100,10,success,first\n\
               2,TRANSFER,5,6,-20,11,Pending,second\n";
    let mut p = ParserByType::from_format("csv", csv.as_bytes().to_vec()).unwrap();
    let mut bin = Vec::new();
    assert_eq!(p.convert_to("bin", &mut bin), Ok(()));
    let mut back = ParserByType::from_format("bin", bin).unwrap();
    let mut csv_out = Vec::new();
    assert_eq!(back.convert_to("csv", &mut csv_out), Ok(()));
    assert_eq!(
        String::from_utf8(csv_out).unwrap(),
        "TX_ID,TX_TYPE,FROM_USER_ID,TO_USER_ID,AMOUNT,TIMESTAMP,STATUS,DESCRIPTION\n\
         1,DEPOSIT,0,5,100,10,SUCCESS,first\n\
         2,TRANSFER,5,6,-20,11,PENDING,second\n"
    );
}

#[test]
fn convert_to_txt_writes_blocks() {
    let csv = "TX_ID,TX_TYPE,FROM_USER_ID,TO_USER_ID,AMOUNT,TIMESTAMP,STATUS,DESCRIPTION\n\
               1,deposit,0,5,100,10,success,first\n";
    let mut p = ParserByType::from_format("csv", csv.as_bytes().to_vec()).unwrap();
    let mut out = Vec::new();
    assert_eq!(p.convert_to("txt", &mut out), Ok(()));
    assert_eq!(
        String::from_utf8(out).unwrap(),
        "TX_ID: 1\nTX_TYPE: DEPOSIT\nFROM_USER_ID: 0\nTO_USER_ID: 5\nAMOUNT: 100\n\
         TIMESTAMP: 10\nSTATUS: SUCCESS\nDESCRIPTION: first\n\n"
    );
}

#[test]
fn convert_stops_at_first_error_after_writing_earlier_records() {
    let csv = "TX_ID,TX_TYPE,FROM_USER_ID,TO_USER_ID,AMOUNT,TIMESTAMP,STATUS,DESCRIPTION\n\
               1,deposit,0,5,100,10,success,first\n\
               2,refund,0,5,100,10,success,second\n\
               3,deposit,0,5,100,10,success,third\n";
    let mut p = ParserCsv::read_from(csv.as_bytes().to_vec()).unwrap();
    let mut out = Vec::new();
    assert_eq!(
        convert_to::<ParserCsv, ParserTxt>(&mut p, &mut out),
        Err(ParserError::ParseRecord(ParseRecordError::UnknownTxType))
    );
    assert_eq!(
        String::from_utf8(out).unwrap(),
        "TX_ID: 1\nTX_TYPE: DEPOSIT\nFROM_USER_ID: 0\nTO_USER_ID: 5\nAMOUNT: 100\n\
         TIMESTAMP: 10\nSTATUS: SUCCESS\nDESCRIPTION: first\n\n"
    );
}

#[test]
fn write_all_from_iter_writes_every_record() {
    let records = sample_records();
    let mut bin = Vec::new();
    for r in &records {
        ParserBin::write_record(r, &mut bin).unwrap();
    }
    let mut p = ParserBin::new(bin.clone());
    let mut again = Vec::new();
    assert_eq!(write_all_from_iter::<ParserBin, ParserBin>(&mut p, &mut again), Ok(()));
    assert_eq!(again, bin);
}

#[test]
fn unknown_formats_are_refused() {
    assert!(matches!(
        ParserByType::from_format("xml", vec![]),
        Err(ParserError::InvalidFormat(f)) if f == "xml"
    ));
    let mut p = ParserByType::from_format("bin", vec![]).unwrap();
    let mut out = vec![1u8];
    assert_eq!(p.convert_to("json", &mut out), Err(ParserError::ConversionNotSupported));
    assert_eq!(out, vec![1u8]);
    assert_eq!(ypbank_parser::parser::format_kind("CSV"), None);
    assert_eq!(ypbank_parser::parser::format_kind("txt"), Some(FormatKind::Txt));
}

#[test]
fn comparing_an_input_with_itself_finds_it_identical() {
    let mut bytes = Vec::new();
    for r in &sample_records() {
        ParserBin::write_record(r, &mut bytes).unwrap();
    }
    let mut a = ParserByType::from_format("bin", bytes.clone()).unwrap();
    let mut b = ParserByType::from_format("bin", bytes).unwrap();
    assert!(matches!(a.compare(&mut b), Comparison::Identical(3)));
}

#[test]
fn comparing_formats_of_the_same_records() {
    let records = sample_records();
    let mut csv = Vec::new();
    ParserCsv::write_header(&mut csv).unwrap();
    let mut bin = Vec::new();
    for r in &records {
        ParserCsv::write_record(r, &mut csv).unwrap();
        ParserBin::write_record(r, &mut bin).unwrap();
    }
    let mut a = ParserByType::from_format("csv", csv).unwrap();
    let mut b = ParserByType::from_format("bin", bin).unwrap();
    assert!(matches!(a.compare(&mut b), Comparison::Identical(3)));
}

#[test]
fn converted_text_file_compares_identical_to_its_source() {
    let records = sample_records();
    let mut csv = Vec::new();
    ParserCsv::write_header(&mut csv).unwrap();
    for r in &records {
        ParserCsv::write_record(r, &mut csv).unwrap();
    }
    let mut source = ParserByType::from_format("csv", csv.clone()).unwrap();
    let mut txt = b"# converted\n".to_vec();
    assert_eq!(source.convert_to("txt", &mut txt), Ok(()));
    let mut a = ParserByType::from_format("csv", csv).unwrap();
    let mut b = ParserByType::from_format("txt", txt).unwrap();
    assert!(matches!(a.compare(&mut b), Comparison::Identical(3)));
}

#[test]
fn comparing_finds_the_first_different_record() {
    let records = sample_records();
    let mut left = Vec::new();
    let mut right = Vec::new();
    for (i, r) in records.iter().enumerate() {
        ParserBin::write_record(r, &mut left).unwrap();
        let mut other = r.clone();
        if i == 1 {
            other.amount = 7;
        }
        ParserBin::write_record(&other, &mut right).unwrap();
    }
    let mut a = ParserByType::from_format("bin", left).unwrap();
    let mut b = ParserByType::from_format("bin", right).unwrap();
    match a.compare(&mut b) {
        Comparison::DifferentRecord(line, l, r) => {
            assert_eq!(line, 2);
            assert_eq!(l.amount, i64::MIN);
            assert_eq!(r.amount, 7);
        }
        other => panic!("unexpected {:?}", other),
    }
}

#[test]
fn comparing_inputs_of_different_length() {
    let records = sample_records();
    let mut left = Vec::new();
    let mut right = Vec::new();
    for r in &records {
        ParserBin::write_record(r, &mut left).unwrap();
    }
    ParserBin::write_record(&records[0], &mut right).unwrap();
    let mut a = ParserByType::from_format("bin", left).unwrap();
    let mut b = ParserByType::from_format("bin", right).unwrap();
    assert!(matches!(a.compare(&mut b), Comparison::DifferentLength));
}

#[test]
fn comparing_reports_the_first_error() {
    let mut a = ParserByType::from_format("bin", b"XXXXYYYY".to_vec()).unwrap();
    let mut b = ParserByType::from_format("bin", vec![]).unwrap();
    assert!(matches!(
        a.compare(&mut b),
        Comparison::Failed(ParserError::InvalidMagicNumber)
    ));
}

#[test]
fn tx_names_read_back_in_any_case() {
    for t in [TxType::Deposit, TxType::Transfer, TxType::Withdrawal] {
        assert_eq!(TxType::try_from_str(t.as_str()), Ok(t));
        assert_eq!(TxType::try_from_str(&t.as_str().to_lowercase()), Ok(t));
        assert_eq!(TxType::try_from_byte(t.to_byte()), Ok(t));
    }
    for s in [TxStatus::Success, TxStatus::Failure, TxStatus::Pending] {
        assert_eq!(TxStatus::try_from_str(s.as_str()), Ok(s));
        assert_eq!(TxStatus::try_from_byte(s.to_byte()), Ok(s));
    }
    assert_eq!(TxType::try_from_str("DePoSiT"), Ok(TxType::Deposit));
    assert_eq!(TxType::from_lowercase("deposit"), Ok(TxType::Deposit));
    assert_eq!(
        TxType::from_lowercase("DEPOSIT"),
        Err(ParserError::ParseRecord(ParseRecordError::UnknownTxType))
    );
    assert_eq!(
        TxType::try_from_str(" deposit"),
        Err(ParserError::ParseRecord(ParseRecordError::UnknownTxType))
    );
    assert_eq!(
        TxStatus::try_from_str("done"),
        Err(ParserError::ParseRecord(ParseRecordError::UnknownStatus))
    );
    assert_eq!(TxType::try_from_byte(3), Err(ParseRecordError::UnknownTxType));
    assert_eq!(TxStatus::try_from_byte(255), Err(ParseRecordError::UnknownStatus));
    assert_eq!(TxType::Withdrawal.to_byte(), 2);
    assert_eq!(TxStatus::Failure.to_byte(), 1);
}

#[test]
fn record_error_messages() {
    assert_eq!(ParseRecordError::UnknownTxType.message(), "Unknown transaction type");
    assert_eq!(ParseRecordError::UnknownStatus.message(), "Unknown status");
    assert_eq!(
        ParserError::from(ParseRecordError::UnknownStatus),
        ParserError::ParseRecord(ParseRecordError::UnknownStatus)
    );
}

#[test]
fn same_as_compares_every_field() {
    let a = sample_records()[1].clone();
    let mut b = a.clone();
    assert!(a.same_as(&b));
    b.description.push('!');
    assert!(!a.same_as(&b));
}

#[test]
fn a_parser_that_has_ended_stays_ended() {
    let records = sample_records();
    let mut csv = Vec::new();
    ParserCsv::write_header(&mut csv).unwrap();
    for r in &records {
        ParserCsv::write_record(r, &mut csv).unwrap();
    }
    let mut source = ParserByType::from_format("csv", csv).unwrap();
    let mut out = Vec::new();
    assert_eq!(source.convert_to("bin", &mut out), Ok(()));
    assert!(source.next().is_none());
    assert!(source.next().is_none());

    let mut p = ParserBin::read_from(vec![1, 2]).unwrap();
    assert!(p.next().is_none());
    assert!(p.next().is_none());
    let mut p = ParserTxt::read_from(b"title\n\n# c\n\n".to_vec()).unwrap();
    assert!(p.next().is_none());
    assert!(p.next().is_none());
}

#[test]
fn a_record_after_blank_lines_is_reached() {
    let r = &sample_records()[0];
    let mut csv = Vec::new();
    ParserCsv::write_header(&mut csv).unwrap();
    csv.extend_from_slice(b"\n  \n\t\n");
    ParserCsv::write_record(r, &mut csv).unwrap();
    let mut p = ParserCsv::read_from(csv).unwrap();
    assert_eq!(p.next(), Some(Ok(r.clone())));
    assert!(p.next().is_none());

    let mut txt = b"title\n\n# a comment\n   \n".to_vec();
    ParserTxt::write_record(r, &mut txt).unwrap();
    let mut p = ParserTxt::read_from(txt).unwrap();
    assert_eq!(p.next(), Some(Ok(r.clone())));
    assert!(p.next().is_none());
}
