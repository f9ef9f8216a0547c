use mint_store::engine::{MintDb, MintError, MintOp, OutputOutcome};
use mint_store::keys::{ECashUserBackupSnapshot, EcashBackupKey, Nonce, OutPoint};

fn out_point(seed: u8, idx: u64) -> OutPoint {
    OutPoint { txid: [seed; 32], out_idx: idx }
}

fn snapshot(ts: u64, data: &[u8]) -> ECashUserBackupSnapshot {
    ECashUserBackupSnapshot { timestamp: ts, data: data.to_vec() }
}

#[test]
fn totals_equal_sums_over_randomized_operations() {
    let mut db = MintDb::new();
    let mut issued: u64 = 0;
    let mut redeemed: u64 = 0;
    // A small linear-congruential generator keeps the sequence deterministic.
    let mut state: u64 = 0x2545F491_4F6CDD1D;
    for round in 0..60u64 {
        state = state.wrapping_mul(6364136223846793005).wrapping_add(1442695040888963407);
        let amount = state % 10_000;
        if state % 3 == 0 {
            let op = out_point((round % 251) as u8, round);
            db.finalize_output(&op, &OutputOutcome::Finalized { sig: vec![round as u8] }, amount)
                .unwrap();
            issued += amount;
        } else {
            let n = Nonce(round.to_be_bytes().to_vec());
            db.process_redeem(&n, amount).unwrap();
            redeemed += amount;
        }
        assert_eq!(db.audit_totals(), (issued, redeemed));
    }
}

#[test]
fn newer_backup_survives_older_write() {
    let mut db = MintDb::new();
    let id = EcashBackupKey([0x42; 32]);
    assert!(db.store_backup(&id, &snapshot(10, b"newer")));
    // An older timestamp is dropped silently, never overwriting.
    assert!(!db.store_backup(&id, &snapshot(5, b"older")));
    let kept = db.latest_backup(&id).unwrap();
    assert_eq!(kept.timestamp, 10);
    assert_eq!(kept.data, b"newer".to_vec());
    // An equal timestamp is stale too.
    assert!(!db.store_backup(&id, &snapshot(10, b"equal")));
    assert_eq!(db.latest_backup(&id).unwrap().data, b"newer".to_vec());
    // A strictly newer snapshot replaces the stored one entirely.
    assert!(db.store_backup(&id, &snapshot(20, b"newest")));
    let replaced = db.latest_backup(&id).unwrap();
    assert_eq!(replaced.timestamp, 20);
    assert_eq!(replaced.data, b"newest".to_vec());
}

#[test]
fn backups_are_per_identity() {
    let mut db = MintDb::new();
    let a = EcashBackupKey([1; 32]);
    let b = EcashBackupKey([2; 32]);
    assert!(db.store_backup(&a, &snapshot(3, b"a")));
    assert!(db.latest_backup(&b).is_none());
    assert!(db.store_backup(&b, &snapshot(1, b"b")));
    assert_eq!(db.latest_backup(&a).unwrap().data, b"a".to_vec());
    assert_eq!(db.latest_backup(&b).unwrap().data, b"b".to_vec());
}

#[test]
fn batch_with_nonce_and_audit_entry_lands_atomically() {
    let mut db = MintDb::new();
    let n = Nonce(vec![0xD0, 0x0D]);
    let ops = vec![MintOp::Redeem { nonce: Nonce(n.0.clone()), amount: 750 }];
    let replies = db.apply_batch(&ops).unwrap();
    assert_eq!(replies, vec![true]);
    // Simulated crash after the commit: a restart sees the committed state,
    // with both the spent marker and its audit entry present.
    let restarted = db;
    assert!(restarted.is_spent(&n));
    assert_eq!(restarted.audit_totals(), (0, 750));
}

#[test]
fn fatal_batch_leaves_no_partial_effects() {
    let mut db = MintDb::new();
    let op = out_point(9, 9);
    db.finalize_output(&op, &OutputOutcome::Finalized { sig: vec![7] }, 100).unwrap();
    let n = Nonce(vec![0xEE]);
    // The redeem would succeed alone, but the duplicate outcome is fatal:
    // the whole batch must leave no trace.
    let ops = vec![
        MintOp::Redeem { nonce: Nonce(n.0.clone()), amount: 50 },
        MintOp::RecordOutcome {
            out_point: op,
            outcome: OutputOutcome::Finalized { sig: vec![8] },
            amount: 1,
        },
    ];
    assert_eq!(db.apply_batch(&ops), Err(MintError::DuplicateOutcome));
    assert!(!db.is_spent(&n));
    assert_eq!(db.audit_totals(), (100, 0));
}

#[test]
fn batch_skips_rejected_operations_and_applies_the_rest() {
    let mut db = MintDb::new();
    let n = Nonce(vec![0x11]);
    db.process_redeem(&n, 10).unwrap();
    let id = EcashBackupKey([7; 32]);
    assert!(db.store_backup(&id, &snapshot(100, b"kept")));
    let ops = vec![
        // Rejected: already spent.
        MintOp::Redeem { nonce: Nonce(n.0.clone()), amount: 10 },
        // Applied: a fresh nonce.
        MintOp::Redeem { nonce: Nonce(vec![0x22]), amount: 5 },
        // Dropped: stale backup.
        MintOp::Backup { key: EcashBackupKey([7; 32]), snapshot: snapshot(50, b"stale") },
    ];
    let replies = db.apply_batch(&ops).unwrap();
    assert_eq!(replies, vec![false, true, false]);
    assert_eq!(db.audit_totals(), (0, 15));
    assert_eq!(db.latest_backup(&id).unwrap().data, b"kept".to_vec());
}

#[test]
fn empty_batch_is_a_no_op() {
    let mut db = MintDb::new();
    let replies = db.apply_batch(&Vec::new()).unwrap();
    assert!(replies.is_empty());
    assert_eq!(db.audit_totals(), (0, 0));
}

#[test]
fn solvency_reflects_totals() {
    let mut db = MintDb::new();
    assert!(db.is_solvent());
    let op = out_point(4, 0);
    db.finalize_output(&op, &OutputOutcome::Finalized { sig: vec![1] }, 100).unwrap();
    assert!(db.is_solvent());
    db.process_redeem(&Nonce(vec![5]), 100).unwrap();
    assert!(db.is_solvent());
    db.process_redeem(&Nonce(vec![6]), 1).unwrap();
    assert!(!db.is_solvent());
}
