use ypbank_parser::{
    BinaryFormat, ParseError, ParseResult, Transaction, TransactionStatus, TransactionType,
};

#[test]
fn test_binary_roundtrip() -> ParseResult<()> {
    let transaction = Transaction {
        tx_id: 123456,
        tx_type: TransactionType::Deposit,
        from_user_id: 0,
        to_user_id: 789,
        amount: 10_000,
        timestamp: 1633036800000,
        status: TransactionStatus::Success,
        description: "Test transaction".to_string(),
    };

    let format = BinaryFormat;
    let mut buffer = Vec::new();

    format.write_to(&mut buffer, &[transaction.clone()])?;

    let result = format.read_from(&buffer)?;

    assert_eq!(result.len(), 1);
    assert_eq!(result[0], transaction);

    Ok(())
}

#[test]
fn test_binary_invalid_magic() {
    let invalid_data = vec![0x00, 0x00, 0x00, 0x00];
    let format = BinaryFormat;
    let result = format.read_from(&invalid_data);
    assert!(matches!(result, Err(ParseError::InvalidMagic)));
}

#[test]
fn test_binary_truncated_record() {
    let mut buffer = Vec::new();
    let format = BinaryFormat;
    let tx = Transaction {
        tx_id: 1,
        tx_type: TransactionType::Deposit,
        from_user_id: 0,
        to_user_id: 2,
        amount: 100,
        timestamp: 1000,
        status: TransactionStatus::Success,
        description: "test".to_string(),
    };
    format.write_to(&mut buffer, &[tx]).unwrap();
    buffer.truncate(buffer.len() - 5);
    let result = format.read_from(&buffer);
    assert!(result.is_err());
}

#[test]
fn test_binary_multiple_transactions() {
    let txs = vec![
        Transaction {
            tx_id: 1,
            tx_type: TransactionType::Deposit,
            from_user_id: 0,
            to_user_id: 2,
            amount: 100,
            timestamp: 1000,
            status: TransactionStatus::Success,
            description: "first".to_string(),
        },
        Transaction {
            tx_id: 2,
            tx_type: TransactionType::Transfer,
            from_user_id: 2,
            to_user_id: 3,
            amount: 50,
            timestamp: 2000,
            status: TransactionStatus::Pending,
            description: "".to_string(),
        },
    ];
    let format = BinaryFormat;
    let mut buffer = Vec::new();
    format.write_to(&mut buffer, &txs).unwrap();
    let read_txs = format.read_from(&buffer).unwrap();
    assert_eq!(read_txs, txs);
}
