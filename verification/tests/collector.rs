use mint_store::engine::{MintDb, MintError, OutputOutcome, OutputStatus, SubmitOutcome};
use mint_store::keys::{OutPoint, PeerId};

fn out_point(seed: u8, idx: u64) -> OutPoint {
    OutPoint { txid: [seed; 32], out_idx: idx }
}

/// Stands in for the external threshold-signature combiner: any function of
/// the collected shares will do for exercising the collection logic.
fn naive_combine(shares: &[(PeerId, Vec<u8>)]) -> Vec<u8> {
    let mut sig = Vec::new();
    for (peer, share) in shares {
        sig.push((peer.0 & 0xFF) as u8);
        sig.extend_from_slice(share);
    }
    sig
}

#[test]
fn below_threshold_stays_pending_then_finalizes_idempotently() {
    let mut db = MintDb::new();
    let op = out_point(3, 0);
    let threshold: usize = 3;

    // Fewer than `threshold` distinct peers: the outcome stays pending.
    for p in 0..2u16 {
        let r = db.submit_share(&op, PeerId(p), &vec![p as u8, 0xCC]);
        assert!(matches!(r, SubmitOutcome::Collecting { .. }));
        assert!(!db.threshold_reached(&op, threshold));
        assert!(matches!(db.output_status(&op), OutputStatus::Pending { .. }));
    }

    // Exactly `threshold` distinct peers: the caller combines and finalizes.
    let r = db.submit_share(&op, PeerId(2), &vec![2, 0xCC]);
    assert!(matches!(r, SubmitOutcome::Collecting { distinct_peers: 3 }));
    assert!(db.threshold_reached(&op, threshold));
    let shares = db.shares_for(&op);
    assert_eq!(shares.len(), 3);
    let sig = naive_combine(&shares);
    assert_eq!(db.finalize_output(&op, &OutputOutcome::Finalized { sig: sig.clone() }, 1000), Ok(()));

    match db.output_status(&op) {
        OutputStatus::Decided(OutputOutcome::Finalized { sig: stored }) => {
            assert_eq!(stored, sig);
        }
        _ => panic!("expected a finalized outcome"),
    }

    // Further shares and a repeated finalize change nothing.
    assert!(matches!(db.submit_share(&op, PeerId(3), &vec![0xEE]), SubmitOutcome::AlreadyDecided));
    assert_eq!(
        db.finalize_output(&op, &OutputOutcome::Failed { reason: vec![1] }, 7),
        Err(MintError::DuplicateOutcome)
    );
    match db.output_status(&op) {
        OutputStatus::Decided(OutputOutcome::Finalized { sig: stored }) => {
            assert_eq!(stored, sig);
        }
        _ => panic!("the stored outcome must be unchanged"),
    }
}

#[test]
fn same_peer_counts_once_and_last_share_wins() {
    let mut db = MintDb::new();
    let op = out_point(5, 7);
    let r1 = db.submit_share(&op, PeerId(11), &vec![0xAA]);
    assert!(matches!(r1, SubmitOutcome::Collecting { distinct_peers: 1 }));
    let r2 = db.submit_share(&op, PeerId(11), &vec![0xBB]);
    assert!(matches!(r2, SubmitOutcome::Collecting { distinct_peers: 1 }));
    let shares = db.shares_for(&op);
    assert_eq!(shares.len(), 1);
    assert_eq!(shares[0].0, PeerId(11));
    assert_eq!(shares[0].1, vec![0xBB]);
}

#[test]
fn outputs_are_distinguishable_pending_decided_unknown() {
    let mut db = MintDb::new();
    let requested = out_point(1, 0);
    let decided = out_point(1, 1);
    let never = out_point(1, 2);
    db.submit_share(&requested, PeerId(0), &vec![1]);
    db.finalize_output(&decided, &OutputOutcome::Failed { reason: vec![9, 9] }, 0).unwrap();

    assert!(matches!(db.output_status(&requested), OutputStatus::Pending { distinct_peers: 1 }));
    match db.output_status(&decided) {
        OutputStatus::Decided(OutputOutcome::Failed { reason }) => assert_eq!(reason, vec![9, 9]),
        _ => panic!("expected a failed outcome"),
    }
    assert!(matches!(db.output_status(&never), OutputStatus::Unknown));
    assert!(db.output_outcome(&never).is_none());
}

#[test]
fn failed_outcome_does_not_touch_issuance_total() {
    let mut db = MintDb::new();
    let op = out_point(2, 0);
    db.finalize_output(&op, &OutputOutcome::Failed { reason: vec![4] }, 123).unwrap();
    assert_eq!(db.audit_totals(), (0, 0));
}

#[test]
fn issuance_total_overflow_is_fatal_and_leaves_state() {
    let mut db = MintDb::new();
    let a = out_point(1, 0);
    let b = out_point(1, 1);
    db.finalize_output(&a, &OutputOutcome::Finalized { sig: vec![1] }, u64::MAX).unwrap();
    assert_eq!(
        db.finalize_output(&b, &OutputOutcome::Finalized { sig: vec![2] }, 1),
        Err(MintError::AuditOverflow)
    );
    assert!(db.output_outcome(&b).is_none());
    assert_eq!(db.audit_totals(), (u64::MAX, 0));
}

#[test]
fn shares_are_scoped_to_their_output() {
    let mut db = MintDb::new();
    let a = out_point(6, 0);
    let b = out_point(6, 1);
    db.submit_share(&a, PeerId(1), &vec![0xA1]);
    db.submit_share(&b, PeerId(2), &vec![0xB2]);
    assert_eq!(db.count_shares(&a), 1);
    assert_eq!(db.count_shares(&b), 1);
    let sa = db.shares_for(&a);
    assert_eq!(sa.len(), 1);
    assert_eq!(sa[0].0, PeerId(1));
    assert_eq!(sa[0].1, vec![0xA1]);
}

#[test]
fn pruning_clears_shares_and_keeps_the_outcome() {
    let mut db = MintDb::new();
    let op = out_point(8, 0);
    let other = out_point(8, 1);
    db.submit_share(&op, PeerId(1), &vec![0x01]);
    db.submit_share(&op, PeerId(2), &vec![0x02]);
    db.submit_share(&other, PeerId(3), &vec![0x03]);
    db.finalize_output(&op, &OutputOutcome::Finalized { sig: vec![0xFF] }, 10).unwrap();
    db.prune_shares(&op);
    assert_eq!(db.count_shares(&op), 0);
    assert!(db.shares_for(&op).is_empty());
    // The outcome, the audit total and other outputs' shares survive.
    assert!(matches!(db.output_status(&op), OutputStatus::Decided(_)));
    assert_eq!(db.count_shares(&other), 1);
}
