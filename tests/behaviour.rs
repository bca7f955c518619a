use ypbank_parser::{
    compare_transactions, BinaryFormat, Comparison, CsvFormat, Format, ParseError, TextFormat,
    Transaction, TransactionStatus, TransactionType,
};

fn tx(id: u64, tx_type: TransactionType, from: u64, to: u64, amount: i64, ts: u64, status: TransactionStatus, d: &str) -> Transaction {
    Transaction {
        tx_id: id,
        tx_type,
        from_user_id: from,
        to_user_id: to,
        amount,
        timestamp: ts,
        status,
        description: d.to_string(),
    }
}

fn first() -> Transaction {
    tx(1, TransactionType::Deposit, 0, 100, 1000, 1000, TransactionStatus::Success, "first")
}

#[test]
fn scenario_binary_single_record() {
    let input = vec![first()];
    let mut buf = Vec::new();
    BinaryFormat.write_to(&mut buf, &input).unwrap();
    let output = BinaryFormat.read_from(&buf).unwrap();
    assert_eq!(output, input);
}

#[test]
fn scenario_csv_two_records_in_order() {
    let input = vec![
        first(),
        tx(2, TransactionType::Withdrawal, 100, 0, -250, 2000, TransactionStatus::Pending, "second one"),
    ];
    let mut buf = Vec::new();
    CsvFormat.write_to(&mut buf, &input).unwrap();
    let output = CsvFormat.read_from(&buf).unwrap();
    assert_eq!(output.len(), 2);
    assert_eq!(output[0], input[0]);
    assert_eq!(output[1], input[1]);
}

#[test]
fn scenario_compare_reports_position_and_counts() {
    let a = vec![first(), tx(2, TransactionType::Transfer, 1, 2, 5, 6, TransactionStatus::Success, "x")];
    let mut b = a.clone();
    b[1].amount = 6;
    match compare_transactions(&a, &b) {
        Comparison::Mismatches(p) => {
            assert_eq!(p, vec![2]);
            assert_ne!(a[p[0] - 1], b[p[0] - 1]);
        }
        other => panic!("unexpected {:?}", other),
    }
    match compare_transactions(&a, &a[..1]) {
        Comparison::CountMismatch(n1, n2) => assert_eq!((n1, n2), (2, 1)),
        other => panic!("unexpected {:?}", other),
    }
    assert!(matches!(compare_transactions(&a, &a.clone()), Comparison::Equal));
}

#[test]
fn round_trip_every_format_with_extremes() {
    let input = vec![
        tx(u64::MAX, TransactionType::Transfer, 0, u64::MAX, i64::MIN, 0, TransactionStatus::Failure, "min amount"),
        tx(0, TransactionType::Withdrawal, 7, 8, i64::MAX, u64::MAX, TransactionStatus::Pending, ""),
        tx(42, TransactionType::Deposit, 1, 2, -1, 3, TransactionStatus::Success, "caf\u{e9} \u{1F600}: ok"),
    ];
    for format in [Format::Binary, Format::Csv, Format::Text] {
        let mut buf = Vec::new();
        format.write_to(&mut buf, &input).unwrap();
        assert_eq!(format.read_from(&buf).unwrap(), input, "{:?}", format);
    }
}

#[test]
fn enum_tokens_and_codes_are_bijective() {
    for t in [TransactionType::Deposit, TransactionType::Transfer, TransactionType::Withdrawal] {
        assert_eq!(TransactionType::try_from(t.token()).unwrap(), t);
        assert_eq!(TransactionType::try_from(u8::from(t)).unwrap(), t);
    }
    for s in [TransactionStatus::Success, TransactionStatus::Failure, TransactionStatus::Pending] {
        assert_eq!(TransactionStatus::try_from(s.token()).unwrap(), s);
        assert_eq!(TransactionStatus::try_from(u8::from(s)).unwrap(), s);
    }
    assert_eq!(TransactionStatus::Pending.to_string(), "PENDING");
    assert_eq!(u8::from(TransactionStatus::Failure), 1);
    assert!(matches!(TransactionStatus::try_from("success"), Err(ParseError::InvalidTransactionStatus(s)) if s == "success"));
    assert!(matches!(TransactionStatus::try_from(9u8), Err(ParseError::InvalidTransactionStatus(s)) if s == "9"));
}

#[test]
fn binary_empty_input_is_no_records() {
    assert_eq!(BinaryFormat.read_from(&[]).unwrap(), Vec::<Transaction>::new());
}

#[test]
fn binary_wire_layout_is_exact() {
    let mut buf = Vec::new();
    let t = tx(0x0102030405060708, TransactionType::Transfer, 1, 2, -2, 3, TransactionStatus::Pending, "ab");
    BinaryFormat.write_to(&mut buf, &[t]).unwrap();
    let mut expected = vec![0x59, 0x50, 0x42, 0x4E, 0, 0, 0, 48];
    expected.extend_from_slice(&[1, 2, 3, 4, 5, 6, 7, 8, 1]);
    expected.extend_from_slice(&[0, 0, 0, 0, 0, 0, 0, 1]);
    expected.extend_from_slice(&[0, 0, 0, 0, 0, 0, 0, 2]);
    expected.extend_from_slice(&[0xFF, 0xFF, 0xFF, 0xFF, 0xFF, 0xFF, 0xFF, 0xFE]);
    expected.extend_from_slice(&[0, 0, 0, 0, 0, 0, 0, 3, 2]);
    expected.extend_from_slice(&[0, 0, 0, 2, b'a', b'b']);
    assert_eq!(buf, expected);
}

#[test]
fn binary_every_truncation_fails() {
    let mut buf = Vec::new();
    BinaryFormat.write_to(&mut buf, &[first()]).unwrap();
    for k in 1..buf.len() {
        let cut = &buf[..buf.len() - k];
        assert!(matches!(BinaryFormat.read_from(cut), Err(ParseError::Io(_))), "cut {}", k);
    }
}

#[test]
fn binary_bad_codes_and_utf8() {
    let mut buf = Vec::new();
    BinaryFormat.write_to(&mut buf, &[first()]).unwrap();
    let mut bad_type = buf.clone();
    bad_type[16] = 7;
    assert!(matches!(BinaryFormat.read_from(&bad_type), Err(ParseError::InvalidTransactionType(s)) if s == "7"));
    let mut bad_status = buf.clone();
    bad_status[49] = 200;
    assert!(matches!(BinaryFormat.read_from(&bad_status), Err(ParseError::InvalidTransactionStatus(s)) if s == "200"));
    let mut bad_text = buf.clone();
    bad_text[54] = 0xFF;
    assert!(matches!(BinaryFormat.read_from(&bad_text), Err(ParseError::Utf8)));
    let mut bad_magic = buf.clone();
    bad_magic.extend_from_slice(b"XPBN");
    assert!(matches!(BinaryFormat.read_from(&bad_magic), Err(ParseError::InvalidMagic)));
}

#[test]
fn csv_exact_output() {
    let mut buf = Vec::new();
    CsvFormat.write_to(&mut buf, &[tx(5, TransactionType::Withdrawal, 9, 0, -30, 77, TransactionStatus::Failure, "cash")]).unwrap();
    assert_eq!(
        String::from_utf8(buf).unwrap(),
        "TX_ID,TX_TYPE,FROM_USER_ID,TO_USER_ID,AMOUNT,TIMESTAMP,STATUS,DESCRIPTION\n5,WITHDRAWAL,9,0,-30,77,FAILURE,\"cash\"\n"
    );
    assert_eq!(CsvFormat::format_transaction(&first()), "1,DEPOSIT,0,100,1000,1000,SUCCESS,\"first\"");
}

#[test]
fn csv_malformed_rows() {
    let header = "TX_ID,TX_TYPE,FROM_USER_ID,TO_USER_ID,AMOUNT,TIMESTAMP,STATUS,DESCRIPTION\n";
    let seven = format!("{}1,DEPOSIT,0,100,1000,1000,SUCCESS\n", header);
    assert!(matches!(CsvFormat.read_from(seven.as_bytes()), Err(ParseError::InvalidFormat(_))));
    let nine = format!("{}1,DEPOSIT,0,100,1000,1000,SUCCESS,\"a\",x\n", header);
    assert!(matches!(CsvFormat.read_from(nine.as_bytes()), Err(ParseError::InvalidFormat(_))));
    let bad_type = format!("{}1,REFUND,0,100,1000,1000,SUCCESS,\"a\"\n", header);
    assert!(matches!(CsvFormat.read_from(bad_type.as_bytes()), Err(ParseError::InvalidTransactionType(s)) if s == "REFUND"));
    let bad_status = format!("{}1,DEPOSIT,0,100,1000,1000,DONE,\"a\"\n", header);
    assert!(matches!(CsvFormat.read_from(bad_status.as_bytes()), Err(ParseError::InvalidTransactionStatus(s)) if s == "DONE"));
    let bad_number = format!("{}1,DEPOSIT,0,1x0,1000,1000,SUCCESS,\"a\"\n", header);
    assert!(matches!(CsvFormat.read_from(bad_number.as_bytes()), Err(ParseError::ParseInt(s)) if s == "1x0"));
    let overflow = format!("{}18446744073709551616,DEPOSIT,0,1,1,1,SUCCESS,\"a\"\n", header);
    assert!(matches!(CsvFormat.read_from(overflow.as_bytes()), Err(ParseError::ParseInt(_))));
    assert!(matches!(CsvFormat.read_from(&[b'h', b'\n', 0xC3]), Err(ParseError::Utf8)));
}

#[test]
fn csv_header_skipped_blank_lines_and_signs() {
    let data = "anything at all\n\n  +7,TRANSFER,1,2,-0,+9,PENDING,\"q\"  \n\n";
    let v = CsvFormat.read_from(data.as_bytes()).unwrap();
    assert_eq!(v, vec![tx(7, TransactionType::Transfer, 1, 2, 0, 9, TransactionStatus::Pending, "q")]);
    assert_eq!(CsvFormat.read_from(b"").unwrap().len(), 0);
    assert!(CsvFormat::parse_csv_line("1,DEPOSIT,0,1,2,3,SUCCESS,x").is_ok());
}

#[test]
fn text_exact_output() {
    let mut buf = Vec::new();
    let two = vec![first(), tx(2, TransactionType::Transfer, 3, 4, -5, 6, TransactionStatus::Failure, "")];
    TextFormat.write_to(&mut buf, &two).unwrap();
    assert_eq!(
        String::from_utf8(buf).unwrap(),
        "TX_ID: 1\nTX_TYPE: DEPOSIT\nFROM_USER_ID: 0\nTO_USER_ID: 100\nAMOUNT: 1000\nTIMESTAMP: 1000\nSTATUS: SUCCESS\nDESCRIPTION: first\n\n\
TX_ID: 2\nTX_TYPE: TRANSFER\nFROM_USER_ID: 3\nTO_USER_ID: 4\nAMOUNT: -5\nTIMESTAMP: 6\nSTATUS: FAILURE\nDESCRIPTION: \n"
    );
}

#[test]
fn text_missing_key_named_and_order_free() {
    let missing = "TX_ID: 1\nTX_TYPE: DEPOSIT\nFROM_USER_ID: 0\nAMOUNT: 1\nTIMESTAMP: 1\nSTATUS: SUCCESS\nDESCRIPTION: d\n";
    assert!(matches!(TextFormat.read_from(missing.as_bytes()), Err(ParseError::MissingField(k)) if k == "TO_USER_ID"));
    let a = "TX_ID: 1\nTX_TYPE: DEPOSIT\nFROM_USER_ID: 0\nTO_USER_ID: 5\nAMOUNT: 1\nTIMESTAMP: 1\nSTATUS: SUCCESS\nDESCRIPTION: d\n";
    let b = "DESCRIPTION: d\nSTATUS: SUCCESS\nTIMESTAMP: 1\nAMOUNT: 1\nTO_USER_ID: 5\nFROM_USER_ID: 0\nTX_TYPE: DEPOSIT\nTX_ID: 1\n";
    assert_eq!(TextFormat.read_from(a.as_bytes()).unwrap(), TextFormat.read_from(b.as_bytes()).unwrap());
    assert_eq!(TextFormat::parse_text_block(b).unwrap(), TextFormat.read_from(a.as_bytes()).unwrap()[0]);
}

#[test]
fn text_comments_blanks_and_later_keys() {
    let data = "\n\n# header\nTX_ID: 1\n  # inside\nTX_TYPE: DEPOSIT\nFROM_USER_ID: 0\nno colon here\nTO_USER_ID: 5\nAMOUNT: 1\nAMOUNT: 2\nTIMESTAMP: 1\nSTATUS: SUCCESS\nDESCRIPTION: a: b\n\n\n\nTX_ID: 2\nTX_TYPE: TRANSFER\nFROM_USER_ID: 0\nTO_USER_ID: 5\nAMOUNT: 1\nTIMESTAMP: 1\nSTATUS: PENDING\nDESCRIPTION: \"q\"";
    let v = TextFormat.read_from(data.as_bytes()).unwrap();
    assert_eq!(v.len(), 2);
    assert_eq!(v[0], tx(1, TransactionType::Deposit, 0, 5, 2, 1, TransactionStatus::Success, "a: b"));
    assert_eq!(v[1].description, "q");
    assert!(matches!(TextFormat.read_from(b"TX_ID: x\n"), Err(ParseError::ParseInt(s)) if s == "x"));
    assert!(matches!(TextFormat.read_from(&[0xFF]), Err(ParseError::Utf8)));
}

#[test]
fn format_dispatch_matches_codecs() {
    let input = vec![first()];
    let mut a = Vec::new();
    let mut b = Vec::new();
    Format::Csv.write_to(&mut a, &input).unwrap();
    CsvFormat.write_to(&mut b, &input).unwrap();
    assert_eq!(a, b);
    let mut c = Vec::new();
    Format::Binary.write_to(&mut c, &input).unwrap();
    assert!(matches!(Format::Text.read_from(&c), Err(_)));
    assert_eq!(Format::Binary.read_from(&c).unwrap(), input);
}

#[test]
fn checked_code_conversion_names_the_code() {
    assert_eq!(TransactionType::from_code_checked(2).unwrap(), TransactionType::Withdrawal);
    assert!(matches!(TransactionType::from_code_checked(3), Err(ParseError::InvalidTransactionType(s)) if s == "3"));
    assert!(matches!(TransactionType::try_from(255u8), Err(ParseError::InvalidTransactionType(s)) if s == "255"));
    assert_eq!(TransactionStatus::from_code_checked(0).unwrap(), TransactionStatus::Success);
    assert!(matches!(TransactionStatus::from_code_checked(10), Err(ParseError::InvalidTransactionStatus(s)) if s == "10"));
}

#[test]
fn csv_header_is_skipped_unread() {
    let mut data = vec![0xFF, 0xFE, b',', b'x', b'\n'];
    data.extend_from_slice(b"1,DEPOSIT,0,100,1000,1000,SUCCESS,\"first\"\n");
    assert_eq!(CsvFormat.read_from(&data).unwrap(), vec![first()]);
    assert_eq!(CsvFormat.read_from(&[0xFF, 0xFE]).unwrap().len(), 0);
    let bad_after = "TX_ID\n1,DEPOSIT,0,100,1000,1000,SUCCESS,\"first\"\n1,2,3\n";
    assert!(matches!(CsvFormat.read_from(bad_after.as_bytes()), Err(ParseError::InvalidFormat(_))));
}

#[test]
fn binary_short_description_is_io_error() {
    let mut buf = Vec::new();
    BinaryFormat.write_to(&mut buf, &[first()]).unwrap();
    buf[53] = 200;
    assert!(matches!(BinaryFormat.read_from(&buf), Err(ParseError::Io(_))));
}

#[test]
fn text_extra_blank_and_comment_lines_change_nothing() {
    let plain = "TX_ID: 1\nTX_TYPE: DEPOSIT\nFROM_USER_ID: 0\nTO_USER_ID: 100\nAMOUNT: 1000\nTIMESTAMP: 1000\nSTATUS: SUCCESS\nDESCRIPTION: first\n";
    let noisy = "\n\n\nTX_ID: 1\n# TX_ID: 99\nTX_TYPE: DEPOSIT\n  #STATUS: FAILURE\nFROM_USER_ID: 0\nTO_USER_ID: 100\nAMOUNT: 1000\nTIMESTAMP: 1000\nSTATUS: SUCCESS\nDESCRIPTION: first\n\n\n\n";
    let a = TextFormat.read_from(plain.as_bytes()).unwrap();
    assert_eq!(a, vec![first()]);
    assert_eq!(TextFormat.read_from(noisy.as_bytes()).unwrap(), a);
}
