use ledger::{Account, Amount, DepositState, Engine, Error};

fn amt(mantissa: i128, scale: u32) -> Amount {
    Amount::new(mantissa, scale).unwrap()
}

fn zero() -> Amount {
    Amount::zero()
}

fn is_zero(a: Amount) -> bool {
    a.mantissa == 0
}

#[test]
fn available_is_total_minus_held() {
    let mut e = Engine::new();
    e.deposit(1, 1, amt(10, 0)).unwrap();
    e.deposit(1, 2, amt(4, 0)).unwrap();
    e.dispute(1, 2).unwrap();
    let a = e.account(1);
    assert_eq!(a.total, amt(14, 0));
    assert_eq!(a.held, amt(4, 0));
    assert_eq!(a.available(), amt(10, 0));
}

#[test]
fn dispute_then_resolve_restores_held() {
    let mut e = Engine::new();
    e.deposit(7, 1, amt(10, 0)).unwrap();
    e.dispute(7, 1).unwrap();
    assert_eq!(e.account(7).held, amt(10, 0));
    e.resolve(7, 1).unwrap();
    let a = e.account(7);
    assert!(is_zero(a.held));
    assert_eq!(a.total, amt(10, 0));
    assert!(!a.locked);
    assert_eq!(e.deposit_record(1).unwrap().state, DepositState::Undisputed);
}

#[test]
fn dispute_then_chargeback_empties_and_locks() {
    let mut e = Engine::new();
    e.deposit(7, 1, amt(10, 0)).unwrap();
    e.dispute(7, 1).unwrap();
    e.chargeback(7, 1).unwrap();
    let a = e.account(7);
    assert!(is_zero(a.total));
    assert!(is_zero(a.held));
    assert!(a.locked);
    assert_eq!(e.deposit_record(1).unwrap().state, DepositState::Chargeback);
}

#[test]
fn duplicate_deposit_rejected() {
    let mut e = Engine::new();
    e.deposit(1, 1, amt(10, 0)).unwrap();
    assert_eq!(e.deposit(1, 1, amt(5, 0)), Err(Error::DuplicateTransactionId(1)));
    assert_eq!(e.account(1).total, amt(10, 0));
    assert_eq!(e.deposit(2, 1, amt(5, 0)), Err(Error::DuplicateTransactionId(1)));
    assert_eq!(e.deposit_record(1).unwrap().client, 1);
}

#[test]
fn overdraft_rejected() {
    let mut e = Engine::new();
    e.deposit(1, 1, amt(10, 0)).unwrap();
    assert_eq!(
        e.withdraw(1, 2, amt(15, 0)),
        Err(Error::InsufficientFunds { client: 1, available: amt(10, 0), requested: amt(15, 0) })
    );
    assert_eq!(e.account(1).total, amt(10, 0));
}

#[test]
fn withdraw_exactly_available() {
    let mut e = Engine::new();
    e.deposit(1, 1, amt(10, 0)).unwrap();
    e.withdraw(1, 2, amt(4, 0)).unwrap();
    assert_eq!(e.account(1).total, amt(6, 0));
    e.withdraw(1, 3, amt(6, 0)).unwrap();
    assert!(is_zero(e.account(1).total));
}

#[test]
fn held_funds_cannot_be_withdrawn() {
    let mut e = Engine::new();
    e.deposit(1, 1, amt(10, 0)).unwrap();
    e.dispute(1, 1).unwrap();
    assert_eq!(
        e.withdraw(1, 2, amt(1, 0)),
        Err(Error::InsufficientFunds { client: 1, available: amt(0, 0), requested: amt(1, 0) })
    );
}

#[test]
fn withdrawal_cannot_be_disputed() {
    let mut e = Engine::new();
    e.deposit(1, 1, amt(10, 0)).unwrap();
    e.withdraw(1, 2, amt(3, 0)).unwrap();
    assert_eq!(e.dispute(1, 2), Err(Error::TransactionNotFound(2)));
    assert!(e.deposit_record(2).is_none());
}

#[test]
fn other_clients_deposit_is_a_mismatch() {
    let mut e = Engine::new();
    e.deposit(1, 1, amt(10, 0)).unwrap();
    let mismatch = Err(Error::ClientMismatch { tx: 1, expected: 2, found: 1 });
    assert_eq!(e.dispute(2, 1), mismatch);
    e.dispute(1, 1).unwrap();
    assert_eq!(e.resolve(2, 1), mismatch);
    assert_eq!(e.chargeback(2, 1), mismatch);
    let a = e.account(1);
    assert_eq!(a.total, amt(10, 0));
    assert_eq!(a.held, amt(10, 0));
    assert!(!a.locked);
    let b = e.account(2);
    assert!(is_zero(b.total) && is_zero(b.held) && !b.locked);
    assert_eq!(e.deposit_record(1).unwrap().state, DepositState::Dispute);
}

#[test]
fn locked_account_refuses_credit_and_debit_only() {
    let mut e = Engine::new();
    e.deposit(1, 1, amt(10, 0)).unwrap();
    e.deposit(1, 2, amt(5, 0)).unwrap();
    e.dispute(1, 1).unwrap();
    e.chargeback(1, 1).unwrap();
    assert!(e.account(1).locked);
    assert_eq!(e.deposit(1, 3, amt(1, 0)), Err(Error::Locked(1)));
    assert_eq!(e.withdraw(1, 4, amt(1, 0)), Err(Error::Locked(1)));
    assert!(e.deposit_record(3).is_none());
    e.dispute(1, 2).unwrap();
    e.resolve(1, 2).unwrap();
    e.dispute(1, 2).unwrap();
    e.chargeback(1, 2).unwrap();
    let a = e.account(1);
    assert!(is_zero(a.total));
    assert!(is_zero(a.held));
    assert!(a.locked);
}

#[test]
fn snapshot_is_repeatable() {
    let mut e = Engine::new();
    e.deposit(3, 1, amt(10, 0)).unwrap();
    e.deposit(1, 2, amt(25, 1)).unwrap();
    e.withdraw(2, 3, amt(1, 0)).unwrap_err();
    let first = e.accounts();
    let second = e.accounts();
    assert_eq!(first, second);
    let keys: Vec<u16> = first.keys().copied().collect();
    assert_eq!(keys, vec![1, 2, 3]);
}

#[test]
fn failed_operation_creates_account() {
    let mut e = Engine::new();
    assert_eq!(e.dispute(9, 1), Err(Error::TransactionNotFound(1)));
    let snapshot = e.accounts();
    assert_eq!(snapshot.len(), 1);
    let a: Account = snapshot[&9];
    assert!(is_zero(a.total) && is_zero(a.held) && !a.locked);
    assert!(e.accounts().contains_key(&9));
}

#[test]
fn dispute_twice_and_resolve_undisputed() {
    let mut e = Engine::new();
    e.deposit(1, 1, amt(10, 0)).unwrap();
    assert_eq!(e.resolve(1, 1), Err(Error::NotDisputed(1)));
    assert_eq!(e.chargeback(1, 1), Err(Error::NotDisputed(1)));
    e.dispute(1, 1).unwrap();
    assert_eq!(e.dispute(1, 1), Err(Error::AlreadyDisputed(1)));
    e.chargeback(1, 1).unwrap();
    assert_eq!(e.dispute(1, 1), Err(Error::AlreadyDisputed(1)));
    assert_eq!(e.resolve(1, 1), Err(Error::NotDisputed(1)));
    assert_eq!(e.chargeback(1, 1), Err(Error::NotDisputed(1)));
}

#[test]
fn unknown_transaction_not_found() {
    let mut e = Engine::new();
    assert_eq!(e.dispute(1, 5), Err(Error::TransactionNotFound(5)));
    assert_eq!(e.resolve(1, 5), Err(Error::TransactionNotFound(5)));
    assert_eq!(e.chargeback(1, 5), Err(Error::TransactionNotFound(5)));
}

#[test]
fn chargeback_after_withdrawal_goes_negative() {
    let mut e = Engine::new();
    e.deposit(1, 1, amt(10, 0)).unwrap();
    e.withdraw(1, 2, amt(8, 0)).unwrap();
    e.dispute(1, 1).unwrap();
    let a = e.account(1);
    assert_eq!(a.available(), amt(-8, 0));
    e.chargeback(1, 1).unwrap();
    let a = e.account(1);
    assert_eq!(a.total, amt(-8, 0));
    assert!(is_zero(a.held));
}

#[test]
fn mixed_scales_add_exactly() {
    let mut e = Engine::new();
    e.deposit(1, 1, amt(15, 1)).unwrap();
    e.deposit(1, 2, amt(225, 2)).unwrap();
    assert_eq!(e.account(1).total, amt(375, 2));
    e.withdraw(1, 3, amt(1, 4)).unwrap();
    assert_eq!(e.account(1).total, amt(37499, 4));
}

#[test]
fn amount_construction_and_arithmetic() {
    assert!(Amount::new(1, 29).is_none());
    assert_eq!(Amount::new(1, 28), Some(Amount { mantissa: 1, scale: 28 }));
    assert_eq!(zero(), Amount { mantissa: 0, scale: 0 });
    assert_eq!(amt(15, 1).checked_add(amt(5, 0)), Some(amt(65, 1)));
    assert_eq!(amt(15, 1).checked_sub(amt(5, 0)), Some(amt(-35, 1)));
    assert_eq!(amt(i128::MAX, 0).checked_add(amt(1, 0)), None);
    assert_eq!(amt(i128::MAX, 0).checked_add(amt(1, 1)), None);
    assert_eq!(amt(i128::MIN, 0).checked_sub(amt(1, 0)), None);
    assert!(amt(149, 2).less_than(amt(15, 1)));
    assert!(!amt(150, 2).less_than(amt(15, 1)));
    assert!(amt(-1, 0).less_than(amt(0, 3)));
}

#[test]
fn fatal_error_kinds() {
    assert!(Error::ClientMismatch { tx: 1, expected: 1, found: 2 }.is_fatal());
    assert!(Error::DuplicateTransactionId(1).is_fatal());
    assert!(!Error::Locked(1).is_fatal());
    assert!(!Error::TransactionNotFound(1).is_fatal());
    assert!(!Error::AlreadyDisputed(1).is_fatal());
    assert!(!Error::NotDisputed(1).is_fatal());
    assert!(!Error::InsufficientFunds { client: 1, available: zero(), requested: zero() }.is_fatal());
}
