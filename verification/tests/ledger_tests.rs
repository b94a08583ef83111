use transaction_system::currency::PreciseCurrency;
use transaction_system::ledger::process_transactions;
use transaction_system::model::{Balance, Transaction, TransactionType};

fn tx(kind: TransactionType, client: u16, id: u32, amount: Option<i64>) -> Transaction {
    Transaction {
        _type: kind,
        client,
        tx: id,
        amount: amount.map(PreciseCurrency::from_raw),
    }
}

fn amounts(b: &Balance) -> (i64, i64, i64, bool) {
    (b.available.raw(), b.held.raw(), b.total.raw(), b.locked)
}

#[test]
fn scenario_insufficient_withdrawal_is_rejected() {
    let txs = vec![
        tx(TransactionType::Deposit, 1, 1, Some(10000)),
        tx(TransactionType::Deposit, 2, 2, Some(20000)),
        tx(TransactionType::Withdrawal, 1, 3, Some(15000)),
    ];
    let balances = process_transactions(&txs);
    let one = balances.get(&1).unwrap();
    assert_eq!(amounts(one), (10000, 0, 10000, false));
    let two = balances.get(&2).unwrap();
    assert_eq!(amounts(two), (20000, 0, 20000, false));
}

#[test]
fn scenario_dispute_holds_funds() {
    let txs = vec![
        tx(TransactionType::Deposit, 1, 1, Some(100000)),
        tx(TransactionType::Dispute, 1, 1, None),
    ];
    let balances = process_transactions(&txs);
    let one = balances.get(&1).unwrap();
    assert_eq!(amounts(one), (0, 100000, 100000, false));
}

#[test]
fn scenario_resolve_releases_funds() {
    let txs = vec![
        tx(TransactionType::Deposit, 1, 1, Some(100000)),
        tx(TransactionType::Dispute, 1, 1, None),
        tx(TransactionType::Resolve, 1, 1, None),
    ];
    let balances = process_transactions(&txs);
    let one = balances.get(&1).unwrap();
    assert_eq!(amounts(one), (100000, 0, 100000, false));
}

#[test]
fn scenario_chargeback_freezes_account() {
    let txs = vec![
        tx(TransactionType::Deposit, 1, 1, Some(100000)),
        tx(TransactionType::Dispute, 1, 1, None),
        tx(TransactionType::Chargeback, 1, 1, None),
        tx(TransactionType::Deposit, 1, 5, Some(50000)),
    ];
    let balances = process_transactions(&txs);
    let one = balances.get(&1).unwrap();
    assert_eq!(amounts(one), (0, 0, 0, true));
}

#[test]
fn scenario_first_withdrawal_reserves_id() {
    let txs = vec![tx(TransactionType::Withdrawal, 1, 1, Some(50000))];
    let balances = process_transactions(&txs);
    let one = balances.get(&1).unwrap();
    assert_eq!(amounts(one), (0, 0, 0, false));
    // The reserved identifier blocks a later deposit under the same id.
    let txs = vec![
        tx(TransactionType::Withdrawal, 1, 1, Some(50000)),
        tx(TransactionType::Deposit, 1, 1, Some(30000)),
    ];
    let balances = process_transactions(&txs);
    let one = balances.get(&1).unwrap();
    assert_eq!(amounts(one), (0, 0, 0, false));
}

#[test]
fn first_event_of_dispute_family_creates_nothing() {
    let txs = vec![
        tx(TransactionType::Dispute, 1, 1, None),
        tx(TransactionType::Resolve, 2, 1, None),
        tx(TransactionType::Chargeback, 3, 1, None),
    ];
    let balances = process_transactions(&txs);
    assert!(balances.is_empty());
}

#[test]
fn duplicate_ids_are_no_ops() {
    let txs = vec![
        tx(TransactionType::Deposit, 1, 1, Some(10000)),
        tx(TransactionType::Deposit, 1, 1, Some(999999)),
        tx(TransactionType::Withdrawal, 1, 2, Some(4000)),
        tx(TransactionType::Withdrawal, 1, 2, Some(4000)),
    ];
    let balances = process_transactions(&txs);
    let one = balances.get(&1).unwrap();
    assert_eq!(amounts(one), (6000, 0, 6000, false));
}

#[test]
fn dispute_happens_at_most_once() {
    // A second dispute while one is waiting changes nothing.
    let txs = vec![
        tx(TransactionType::Deposit, 1, 1, Some(10000)),
        tx(TransactionType::Deposit, 1, 2, Some(20000)),
        tx(TransactionType::Dispute, 1, 1, None),
        tx(TransactionType::Dispute, 1, 1, None),
    ];
    let balances = process_transactions(&txs);
    let one = balances.get(&1).unwrap();
    assert_eq!(amounts(one), (20000, 10000, 30000, false));
    // A dispute after a resolve changes nothing either.
    let txs = vec![
        tx(TransactionType::Deposit, 1, 1, Some(10000)),
        tx(TransactionType::Dispute, 1, 1, None),
        tx(TransactionType::Resolve, 1, 1, None),
        tx(TransactionType::Dispute, 1, 1, None),
        tx(TransactionType::Resolve, 1, 1, None),
    ];
    let balances = process_transactions(&txs);
    let one = balances.get(&1).unwrap();
    assert_eq!(amounts(one), (10000, 0, 10000, false));
}

#[test]
fn frozen_account_ignores_everything() {
    let txs = vec![
        tx(TransactionType::Deposit, 1, 1, Some(10000)),
        tx(TransactionType::Deposit, 1, 2, Some(20000)),
        tx(TransactionType::Dispute, 1, 1, None),
        tx(TransactionType::Chargeback, 1, 1, None),
        tx(TransactionType::Deposit, 1, 3, Some(5000)),
        tx(TransactionType::Withdrawal, 1, 2, Some(5000)),
        tx(TransactionType::Dispute, 1, 2, None),
        tx(TransactionType::Resolve, 1, 2, None),
        tx(TransactionType::Chargeback, 1, 2, None),
    ];
    let balances = process_transactions(&txs);
    let one = balances.get(&1).unwrap();
    assert_eq!(amounts(one), (20000, 0, 20000, true));
}

#[test]
fn books_balance_after_a_mixed_run() {
    let txs = vec![
        tx(TransactionType::Deposit, 1, 1, Some(50000)),
        tx(TransactionType::Deposit, 1, 2, Some(25000)),
        tx(TransactionType::Withdrawal, 1, 3, Some(10000)),
        tx(TransactionType::Dispute, 1, 2, None),
        tx(TransactionType::Deposit, 2, 1, Some(70000)),
        tx(TransactionType::Withdrawal, 2, 2, Some(70000)),
        tx(TransactionType::Dispute, 2, 2, None),
        tx(TransactionType::Resolve, 1, 2, None),
        tx(TransactionType::Withdrawal, 1, 4, Some(65000)),
    ];
    let balances = process_transactions(&txs);
    for b in balances.values() {
        let (available, held, total, _) = amounts(b);
        assert_eq!(total, available + held);
        assert!(available >= 0);
        assert!(held >= 0);
    }
    assert_eq!(amounts(balances.get(&1).unwrap()), (0, 0, 0, false));
    assert_eq!(amounts(balances.get(&2).unwrap()), (0, 0, 0, false));
}

#[test]
fn disputed_withdrawal_moves_no_funds_until_chargeback() {
    let txs = vec![
        tx(TransactionType::Deposit, 1, 1, Some(50000)),
        tx(TransactionType::Withdrawal, 1, 2, Some(20000)),
        tx(TransactionType::Dispute, 1, 2, None),
    ];
    let balances = process_transactions(&txs);
    let one = balances.get(&1).unwrap();
    assert_eq!(amounts(one), (30000, 0, 30000, false));
    // The chargeback reverses the withdrawal and freezes the account.
    let txs = vec![
        tx(TransactionType::Deposit, 1, 1, Some(50000)),
        tx(TransactionType::Withdrawal, 1, 2, Some(20000)),
        tx(TransactionType::Dispute, 1, 2, None),
        tx(TransactionType::Chargeback, 1, 2, None),
    ];
    let balances = process_transactions(&txs);
    let one = balances.get(&1).unwrap();
    assert_eq!(amounts(one), (50000, 0, 50000, true));
}

#[test]
fn from_tx_only_deposits_and_withdrawals_create() {
    let created = Balance::from_tx(tx(TransactionType::Deposit, 7, 1, Some(12345))).unwrap();
    assert_eq!(amounts(&created), (12345, 0, 12345, false));
    assert_eq!(created.client, 7);
    let created = Balance::from_tx(tx(TransactionType::Withdrawal, 8, 1, Some(12345))).unwrap();
    assert_eq!(amounts(&created), (0, 0, 0, false));
    assert!(Balance::from_tx(tx(TransactionType::Dispute, 1, 1, None)).is_none());
    assert!(Balance::from_tx(tx(TransactionType::Resolve, 1, 1, None)).is_none());
    assert!(Balance::from_tx(tx(TransactionType::Chargeback, 1, 1, None)).is_none());
}

#[test]
fn apply_tx_mutates_in_place() {
    let mut b = Balance::from_tx(tx(TransactionType::Deposit, 1, 1, Some(10000))).unwrap();
    b.apply_tx(tx(TransactionType::Deposit, 1, 2, Some(5000)));
    assert_eq!(amounts(&b), (15000, 0, 15000, false));
    b.apply_tx(tx(TransactionType::Withdrawal, 1, 3, Some(7000)));
    assert_eq!(amounts(&b), (8000, 0, 8000, false));
}

#[test]
fn balances_compare_by_what_they_report() {
    let a = Balance::from_tx(tx(TransactionType::Deposit, 1, 1, Some(10000))).unwrap();
    let b = Balance::from_tx(tx(TransactionType::Deposit, 1, 2, Some(10000))).unwrap();
    // Same owner and funds, different recorded histories: still equal.
    assert_eq!(a, b);
    let c = Balance::from_tx(tx(TransactionType::Deposit, 1, 3, Some(20000))).unwrap();
    assert_ne!(a, c);
}
