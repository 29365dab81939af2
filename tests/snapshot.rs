use rust_wallet_backend::snapshot::SNAPSHOT_VERSION;
use rust_wallet_backend::{Identity, Ledger, LedgerError};

fn accounts_of(l: &Ledger) -> Vec<(Vec<u8>, u64)> {
    l.list_accounts()
        .iter()
        .map(|a| (a.identity.as_bytes().to_vec(), a.balance))
        .collect()
}

fn round_trip(l: &Ledger) {
    let bytes = l.snapshot();
    let back = Ledger::restore(&bytes).unwrap();
    assert_eq!(accounts_of(&back), accounts_of(l));
}

#[test]
fn empty_ledger_round_trips() {
    let l = Ledger::new();
    let bytes = l.snapshot();
    assert_eq!(bytes, vec![SNAPSHOT_VERSION, 0, 0, 0, 0, 0, 0, 0, 0]);
    round_trip(&l);
}

#[test]
fn zero_balance_account_round_trips() {
    let mut l = Ledger::new();
    l.register(Identity::from_bytes(&[7]), 0).unwrap();
    round_trip(&l);
}

#[test]
fn three_accounts_round_trip() {
    let mut l = Ledger::new();
    l.register(Identity::from_bytes(&[1, 2, 3]), 100).unwrap();
    l.register(Identity::from_bytes(&[]), 0).unwrap();
    l.register(Identity::from_bytes(&[9; 29]), u64::MAX).unwrap();
    round_trip(&l);
}

#[test]
fn snapshot_layout_is_length_prefixed() {
    let mut l = Ledger::new();
    l.register(Identity::from_bytes(&[0xaa, 0xbb]), 0x0102).unwrap();
    let bytes = l.snapshot();
    let expected: Vec<u8> = vec![
        1, 1, 0, 0, 0, 0, 0, 0, 0, // version, one record
        2, 0, 0, 0, 0, 0, 0, 0, 0xaa, 0xbb, // identity
        0x02, 0x01, 0, 0, 0, 0, 0, 0, // balance
    ];
    assert_eq!(bytes, expected);
    let back = Ledger::restore(&expected).unwrap();
    assert_eq!(back.balance_of(&Identity::from_bytes(&[0xaa, 0xbb])), Some(0x0102));
}

#[test]
fn restore_rejects_empty_input() {
    assert_eq!(Ledger::restore(&[]).err(), Some(LedgerError::CorruptSnapshot));
}

#[test]
fn restore_rejects_wrong_version() {
    let mut bytes = Ledger::new().snapshot();
    bytes[0] = 2;
    assert_eq!(Ledger::restore(&bytes).err(), Some(LedgerError::CorruptSnapshot));
}

#[test]
fn restore_rejects_truncated_and_padded_input() {
    let mut l = Ledger::new();
    l.register(Identity::from_bytes(&[5, 6]), 42).unwrap();
    let bytes = l.snapshot();
    for cut in 0..bytes.len() {
        assert_eq!(
            Ledger::restore(&bytes[..cut]).err(),
            Some(LedgerError::CorruptSnapshot)
        );
    }
    let mut padded = bytes.clone();
    padded.push(0);
    assert_eq!(Ledger::restore(&padded).err(), Some(LedgerError::CorruptSnapshot));
}

#[test]
fn restore_rejects_oversized_identity_length() {
    let bytes: Vec<u8> = vec![
        1, 1, 0, 0, 0, 0, 0, 0, 0, //
        0xff, 0xff, 0xff, 0xff, 0xff, 0xff, 0xff, 0xff, //
        0, 0, 0, 0, 0, 0, 0, 0,
    ];
    assert_eq!(Ledger::restore(&bytes).err(), Some(LedgerError::CorruptSnapshot));
}

#[test]
fn restore_rejects_duplicate_identities() {
    let bytes: Vec<u8> = vec![
        1, 2, 0, 0, 0, 0, 0, 0, 0, //
        1, 0, 0, 0, 0, 0, 0, 0, 7, 1, 0, 0, 0, 0, 0, 0, 0, //
        1, 0, 0, 0, 0, 0, 0, 0, 7, 2, 0, 0, 0, 0, 0, 0, 0,
    ];
    assert_eq!(Ledger::restore(&bytes).err(), Some(LedgerError::CorruptSnapshot));
}
