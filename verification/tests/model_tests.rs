use transaction_system::model::{transaction_type_from_str, TransactionType};

#[test]
fn kind_names_are_read_case_insensitively() {
    assert_eq!(
        transaction_type_from_str("deposit"),
        Some(TransactionType::Deposit)
    );
    assert_eq!(
        transaction_type_from_str("DePoSit"),
        Some(TransactionType::Deposit)
    );
    assert_eq!(
        transaction_type_from_str("WITHDRAWAL"),
        Some(TransactionType::Withdrawal)
    );
    assert_eq!(
        transaction_type_from_str("Dispute"),
        Some(TransactionType::Dispute)
    );
    assert_eq!(
        transaction_type_from_str("resolve"),
        Some(TransactionType::Resolve)
    );
    assert_eq!(
        transaction_type_from_str("ChargeBack"),
        Some(TransactionType::Chargeback)
    );
}

#[test]
fn unknown_kind_names_are_rejected() {
    assert_eq!(transaction_type_from_str(""), None);
    assert_eq!(transaction_type_from_str("deposits"), None);
    assert_eq!(transaction_type_from_str("depo"), None);
    assert_eq!(transaction_type_from_str(" deposit"), None);
    assert_eq!(transaction_type_from_str("transfer"), None);
}
