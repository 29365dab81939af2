use rust_wallet_backend::{Identity, Ledger, LedgerError};

fn alice() -> Identity {
    Identity::from_bytes(&[0xa1, 0x1c, 0xe0])
}

fn bob() -> Identity {
    Identity::from_bytes(&[0xb0, 0x0b])
}

fn carol() -> Identity {
    Identity::from_bytes(&[0xca, 0x40, 0x11, 0x01])
}

fn total(l: &Ledger) -> u128 {
    l.list_accounts().iter().map(|a| a.balance as u128).sum()
}

#[test]
fn new_ledger_is_empty() {
    let l = Ledger::new();
    assert_eq!(l.len(), 0);
    assert!(l.list_accounts().is_empty());
    assert_eq!(l.balance_of(&alice()), None);
}

#[test]
fn register_echoes_caller_and_records_balance() {
    let mut l = Ledger::new();
    let id = l.register(alice(), 100).unwrap();
    assert!(id == alice());
    assert_eq!(l.balance_of(&alice()), Some(100));
    assert_eq!(l.len(), 1);
}

#[test]
fn register_twice_fails_and_keeps_first_balance() {
    let mut l = Ledger::new();
    assert!(l.register(alice(), 100).is_ok());
    assert_eq!(l.register(alice(), 7).err(), Some(LedgerError::AlreadyRegistered));
    assert_eq!(l.len(), 1);
    assert_eq!(l.balance_of(&alice()), Some(100));
}

#[test]
fn list_accounts_keeps_registration_order() {
    let mut l = Ledger::new();
    l.register(bob(), 5).unwrap();
    l.register(alice(), 9).unwrap();
    let accts = l.list_accounts();
    assert_eq!(accts.len(), 2);
    assert_eq!(accts[0].identity.as_bytes(), &[0xb0, 0x0b]);
    assert_eq!(accts[0].balance, 5);
    assert_eq!(accts[1].identity.as_bytes(), &[0xa1, 0x1c, 0xe0]);
    assert_eq!(accts[1].balance, 9);
}

#[test]
fn transfer_moves_balance_between_accounts() {
    let mut l = Ledger::new();
    l.register(alice(), 100).unwrap();
    l.register(bob(), 50).unwrap();
    assert_eq!(l.transfer(&alice(), &bob(), 30), Ok(()));
    assert_eq!(l.balance_of(&alice()), Some(70));
    assert_eq!(l.balance_of(&bob()), Some(80));
}

#[test]
fn debit_beyond_balance_fails_and_changes_nothing() {
    let mut l = Ledger::new();
    l.register(alice(), 10).unwrap();
    assert_eq!(l.debit(&alice(), 20), Err(LedgerError::InsufficientBalance));
    assert_eq!(l.balance_of(&alice()), Some(10));
}

#[test]
fn self_transfer_is_checked_and_changes_nothing() {
    let mut l = Ledger::new();
    l.register(alice(), 40).unwrap();
    assert_eq!(l.transfer(&alice(), &alice(), 5), Ok(()));
    assert_eq!(l.balance_of(&alice()), Some(40));
    assert_eq!(l.transfer(&alice(), &alice(), 41), Err(LedgerError::InsufficientBalance));
    assert_eq!(l.balance_of(&alice()), Some(40));
}

#[test]
fn transfer_and_back_restores_balances() {
    let mut l = Ledger::new();
    l.register(alice(), 25).unwrap();
    l.register(bob(), 3).unwrap();
    l.transfer(&alice(), &bob(), 25).unwrap();
    assert_eq!(l.balance_of(&alice()), Some(0));
    assert_eq!(l.balance_of(&bob()), Some(28));
    l.transfer(&bob(), &alice(), 25).unwrap();
    assert_eq!(l.balance_of(&alice()), Some(25));
    assert_eq!(l.balance_of(&bob()), Some(3));
}

#[test]
fn totals_follow_transfers_credits_and_debits() {
    let mut l = Ledger::new();
    l.register(alice(), 100).unwrap();
    l.register(bob(), 50).unwrap();
    l.register(carol(), 0).unwrap();
    assert_eq!(total(&l), 150);
    l.transfer(&alice(), &carol(), 60).unwrap();
    assert_eq!(total(&l), 150);
    assert!(l.transfer(&bob(), &carol(), 51).is_err());
    assert_eq!(total(&l), 150);
    assert_eq!(l.credit(&bob(), 12), Ok(62));
    assert_eq!(total(&l), 162);
    l.debit(&carol(), 20).unwrap();
    assert_eq!(total(&l), 142);
    assert_eq!(l.balance_of(&carol()), Some(40));
}

#[test]
fn credit_returns_new_balance() {
    let mut l = Ledger::new();
    l.register(alice(), 7).unwrap();
    assert_eq!(l.credit(&alice(), 5), Ok(12));
    assert_eq!(l.balance_of(&alice()), Some(12));
}

#[test]
fn credit_unknown_caller_is_not_found() {
    let mut l = Ledger::new();
    l.register(alice(), 7).unwrap();
    assert_eq!(l.credit(&bob(), 5), Err(LedgerError::NotFound));
    assert_eq!(l.len(), 1);
}

#[test]
fn credit_past_u64_max_overflows() {
    let mut l = Ledger::new();
    l.register(alice(), u64::MAX - 1).unwrap();
    assert_eq!(l.credit(&alice(), 2), Err(LedgerError::Overflow));
    assert_eq!(l.balance_of(&alice()), Some(u64::MAX - 1));
    assert_eq!(l.credit(&alice(), 1), Ok(u64::MAX));
}

#[test]
fn debit_takes_amount() {
    let mut l = Ledger::new();
    l.register(alice(), 10).unwrap();
    assert_eq!(l.debit(&alice(), 10), Ok(()));
    assert_eq!(l.balance_of(&alice()), Some(0));
}

#[test]
fn debit_unknown_caller_is_not_found() {
    let mut l = Ledger::new();
    assert_eq!(l.debit(&alice(), 0), Err(LedgerError::NotFound));
}

#[test]
fn transfer_with_unknown_party_is_not_found() {
    let mut l = Ledger::new();
    l.register(alice(), 10).unwrap();
    assert_eq!(l.transfer(&bob(), &alice(), 1), Err(LedgerError::NotFound));
    assert_eq!(l.transfer(&alice(), &bob(), 1), Err(LedgerError::NotFound));
    assert_eq!(l.balance_of(&alice()), Some(10));
}

#[test]
fn transfer_beyond_balance_is_insufficient() {
    let mut l = Ledger::new();
    l.register(alice(), 10).unwrap();
    l.register(bob(), 0).unwrap();
    assert_eq!(l.transfer(&alice(), &bob(), 11), Err(LedgerError::InsufficientBalance));
    assert_eq!(l.balance_of(&alice()), Some(10));
    assert_eq!(l.balance_of(&bob()), Some(0));
}

#[test]
fn transfer_into_full_account_overflows() {
    let mut l = Ledger::new();
    l.register(alice(), 10).unwrap();
    l.register(bob(), u64::MAX).unwrap();
    assert_eq!(l.transfer(&alice(), &bob(), 1), Err(LedgerError::Overflow));
    assert_eq!(l.balance_of(&alice()), Some(10));
    assert_eq!(l.balance_of(&bob()), Some(u64::MAX));
}

#[test]
fn zero_amounts_change_nothing() {
    let mut l = Ledger::new();
    l.register(alice(), 0).unwrap();
    l.register(bob(), 4).unwrap();
    assert_eq!(l.transfer(&alice(), &bob(), 0), Ok(()));
    assert_eq!(l.credit(&alice(), 0), Ok(0));
    assert_eq!(l.debit(&bob(), 0), Ok(()));
    assert_eq!(l.balance_of(&alice()), Some(0));
    assert_eq!(l.balance_of(&bob()), Some(4));
}

#[test]
fn identities_compare_by_bytes() {
    assert!(alice() == Identity::from_bytes(&[0xa1, 0x1c, 0xe0]));
    assert!(alice() != bob());
    assert!(Identity::from_bytes(&[1, 2]) != Identity::from_bytes(&[1, 2, 3]));
    assert!(Identity::from_bytes(&[]) == Identity::from_bytes(&[]));
    assert_eq!(carol().len(), 4);
    assert_eq!(carol().clone().as_bytes(), &[0xca, 0x40, 0x11, 0x01]);
}
