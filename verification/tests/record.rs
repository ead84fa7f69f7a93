use ypbank_parser::{TxStatus, TxType};

#[test]
fn test_tx_type_to_string() {
    assert_eq!(TxType::Deposit.as_str(), "DEPOSIT");
    assert_eq!(TxType::Transfer.as_str(), "TRANSFER");
    assert_eq!(TxType::Withdrawal.as_str(), "WITHDRAWAL");
}

#[test]
fn test_tx_status_to_string() {
    assert_eq!(TxStatus::Success.as_str(), "SUCCESS");
    assert_eq!(TxStatus::Failure.as_str(), "FAILURE");
    assert_eq!(TxStatus::Pending.as_str(), "PENDING");
}
