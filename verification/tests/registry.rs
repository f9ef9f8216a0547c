use mint_store::engine::{MintDb, MintError};
use mint_store::keys::Nonce;

fn nonce(bytes: &[u8]) -> Nonce {
    Nonce(bytes.to_vec())
}

#[test]
fn first_spend_succeeds_then_always_double_spend() {
    let mut db = MintDb::new();
    let n = nonce(&[1, 2, 3, 4]);
    assert!(!db.is_spent(&n));
    assert_eq!(db.record_spend(&n), Ok(()));
    assert!(db.is_spent(&n));
    assert_eq!(db.record_spend(&n), Err(MintError::DoubleSpend));
    assert_eq!(db.record_spend(&n), Err(MintError::DoubleSpend));
    assert!(db.is_spent(&n));
}

#[test]
fn distinct_nonces_do_not_interfere() {
    let mut db = MintDb::new();
    let a = nonce(&[9; 32]);
    let b = nonce(&[8; 32]);
    assert_eq!(db.record_spend(&a), Ok(()));
    assert!(db.is_spent(&a));
    assert!(!db.is_spent(&b));
    assert_eq!(db.record_spend(&b), Ok(()));
    assert!(db.is_spent(&b));
}

#[test]
fn spent_report_is_stable_across_reads() {
    let mut db = MintDb::new();
    let n = nonce(&[0xAA, 0xBB]);
    assert!(!db.is_spent(&n));
    assert!(!db.is_spent(&n));
    db.record_spend(&n).unwrap();
    assert!(db.is_spent(&n));
    assert!(db.is_spent(&n));
}

#[test]
fn redeem_rejects_double_spend_and_keeps_totals() {
    let mut db = MintDb::new();
    let n = nonce(&[7; 16]);
    assert_eq!(db.process_redeem(&n, 500), Ok(()));
    assert!(db.is_spent(&n));
    assert_eq!(db.audit_totals(), (0, 500));
    assert_eq!(db.process_redeem(&n, 500), Err(MintError::DoubleSpend));
    assert_eq!(db.audit_totals(), (0, 500));
}

#[test]
fn redeem_total_overflow_is_fatal_and_leaves_state() {
    let mut db = MintDb::new();
    let a = nonce(&[1]);
    let b = nonce(&[2]);
    assert_eq!(db.process_redeem(&a, u64::MAX), Ok(()));
    assert_eq!(db.process_redeem(&b, 1), Err(MintError::AuditOverflow));
    assert!(!db.is_spent(&b));
    assert_eq!(db.audit_totals(), (0, u64::MAX));
}
