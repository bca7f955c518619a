use ypbank_parser::{CsvFormat, ParseResult, Transaction, TransactionStatus, TransactionType};

#[test]
fn test_csv_roundtrip() -> ParseResult<()> {
    let transactions = vec![
        Transaction {
            tx_id: 1001,
            tx_type: TransactionType::Deposit,
            from_user_id: 0,
            to_user_id: 501,
            amount: 50_000,
            timestamp: 1672531200000,
            status: TransactionStatus::Success,
            description: "Initial account funding".to_string(),
        },
        Transaction {
            tx_id: 1002,
            tx_type: TransactionType::Transfer,
            from_user_id: 501,
            to_user_id: 502,
            amount: 15_000,
            timestamp: 1672534800000,
            status: TransactionStatus::Failure,
            description: "Payment for services".to_string(),
        },
    ];

    let format = CsvFormat;
    let mut buffer = Vec::new();

    format.write_to(&mut buffer, &transactions)?;

    let result = format.read_from(&buffer)?;

    assert_eq!(result.len(), 2);
    assert_eq!(result[0], transactions[0]);
    assert_eq!(result[1], transactions[1]);

    Ok(())
}
