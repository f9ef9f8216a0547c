use mint_store::keys::{
    DbKeyPrefix, ECashUserBackupSnapshot, EcashBackupKey, EcashBackupKeyPrefix, MintAuditItemKey,
    MintAuditItemKeyPrefix, Nonce, NonceKey, NonceKeyPrefix, OutPoint, OutputOutcomeKey,
    OutputOutcomeKeyPrefix, PeerId, ProposedPartialSignatureKey,
    ProposedPartialSignaturesKeyPrefix, ReceivedPartialSignatureKey,
    ReceivedPartialSignatureKeyOutputPrefix, ReceivedPartialSignaturesKeyPrefix,
};
use mint_store::store::{KvStore, WriteOp};

#[test]
fn namespace_tags_are_fixed_and_distinct() {
    let all = DbKeyPrefix::all();
    let tags: Vec<u8> = all.iter().map(|p| p.tag()).collect();
    assert_eq!(tags, vec![0x10, 0x11, 0x12, 0x13, 0x14, 0x15]);
    assert_eq!(DbKeyPrefix::NoteNonce.tag(), 0x10);
    assert_eq!(DbKeyPrefix::ProposedPartialSig.tag(), 0x11);
    assert_eq!(DbKeyPrefix::ReceivedPartialSig.tag(), 0x12);
    assert_eq!(DbKeyPrefix::OutputOutcome.tag(), 0x13);
    assert_eq!(DbKeyPrefix::MintAuditItem.tag(), 0x14);
    assert_eq!(DbKeyPrefix::EcashBackup.tag(), 0x15);
}

#[test]
fn key_encodings_are_deterministic_and_tagged() {
    let nonce_key = NonceKey(Nonce(vec![0xAB, 0xCD]));
    assert_eq!(nonce_key.to_bytes(), vec![0x10, 0xAB, 0xCD]);
    assert_eq!(NonceKeyPrefix.to_bytes(), vec![0x10]);

    let op = OutPoint { txid: [0x01; 32], out_idx: 2 };
    let mut expected = vec![0x11];
    expected.extend_from_slice(&[0x01; 32]);
    expected.extend_from_slice(&2u64.to_be_bytes());
    assert_eq!(ProposedPartialSignatureKey { out_point: op }.to_bytes(), expected);
    assert_eq!(ProposedPartialSignaturesKeyPrefix.to_bytes(), vec![0x11]);

    let mut received = vec![0x12];
    received.extend_from_slice(&[0x01; 32]);
    received.extend_from_slice(&2u64.to_be_bytes());
    assert_eq!(
        ReceivedPartialSignatureKeyOutputPrefix { request_id: op }.to_bytes(),
        received
    );
    let mut with_peer = received.clone();
    with_peer.extend_from_slice(&513u16.to_be_bytes());
    assert_eq!(
        ReceivedPartialSignatureKey { request_id: op, peer_id: PeerId(513) }.to_bytes(),
        with_peer
    );
    assert_eq!(ReceivedPartialSignaturesKeyPrefix.to_bytes(), vec![0x12]);

    let mut outcome = vec![0x13];
    outcome.extend_from_slice(&[0x01; 32]);
    outcome.extend_from_slice(&2u64.to_be_bytes());
    assert_eq!(OutputOutcomeKey(op).to_bytes(), outcome);
    assert_eq!(OutputOutcomeKeyPrefix.to_bytes(), vec![0x13]);

    assert_eq!(MintAuditItemKey::IssuanceTotal.to_bytes(), vec![0x14, 0x01]);
    assert_eq!(MintAuditItemKey::RedemptionTotal.to_bytes(), vec![0x14, 0x03]);
    let mut issuance = vec![0x14, 0x00];
    issuance.extend_from_slice(&[0x01; 32]);
    issuance.extend_from_slice(&2u64.to_be_bytes());
    assert_eq!(MintAuditItemKey::Issuance(op).to_bytes(), issuance);
    assert_eq!(
        MintAuditItemKey::Redemption(NonceKey(Nonce(vec![0x77]))).to_bytes(),
        vec![0x14, 0x02, 0x77]
    );
    assert_eq!(MintAuditItemKeyPrefix.to_bytes(), vec![0x14]);

    let mut backup = vec![0x15];
    backup.extend_from_slice(&[0x09; 32]);
    assert_eq!(EcashBackupKey([0x09; 32]).to_bytes(), backup);
    assert_eq!(EcashBackupKeyPrefix.to_bytes(), vec![0x15]);
}

#[test]
fn snapshot_holds_timestamp_and_payload() {
    let s = ECashUserBackupSnapshot { timestamp: 99, data: vec![1, 2, 3] };
    assert_eq!(s.timestamp, 99);
    assert_eq!(s.data, vec![1, 2, 3]);
}

#[test]
fn store_point_operations() {
    let mut store = KvStore::new();
    assert!(store.get(&vec![1, 2]).is_none());
    store.put(vec![1, 2], vec![0xAA]);
    store.put(vec![0, 9], vec![0xBB]);
    assert_eq!(store.get(&vec![1, 2]), Some(&vec![0xAA]));
    assert_eq!(store.get(&vec![0, 9]), Some(&vec![0xBB]));
    // A second put for the same key replaces the value.
    store.put(vec![1, 2], vec![0xCC]);
    assert_eq!(store.get(&vec![1, 2]), Some(&vec![0xCC]));
    store.delete(&vec![1, 2]);
    assert!(store.get(&vec![1, 2]).is_none());
    assert_eq!(store.get(&vec![0, 9]), Some(&vec![0xBB]));
}

#[test]
fn range_is_prefix_scoped_and_byte_ordered() {
    let mut store = KvStore::new();
    store.put(vec![0x12, 0x05], vec![5]);
    store.put(vec![0x12, 0x01], vec![1]);
    store.put(vec![0x13, 0x00], vec![9]);
    store.put(vec![0x12, 0x03], vec![3]);
    store.put(vec![0x11, 0xFF], vec![8]);
    let rows = store.range(&vec![0x12]);
    let keys: Vec<Vec<u8>> = rows.iter().map(|e| e.0.clone()).collect();
    // Only the scanned namespace, in ascending byte order of the keys.
    assert_eq!(keys, vec![vec![0x12, 0x01], vec![0x12, 0x03], vec![0x12, 0x05]]);
    let vals: Vec<Vec<u8>> = rows.iter().map(|e| e.1.clone()).collect();
    assert_eq!(vals, vec![vec![1], vec![3], vec![5]]);
}

#[test]
fn store_batch_applies_in_order() {
    let mut store = KvStore::new();
    let ops = vec![
        WriteOp::Put(vec![1], vec![10]),
        WriteOp::Put(vec![2], vec![20]),
        WriteOp::Delete(vec![1]),
        WriteOp::Put(vec![2], vec![21]),
    ];
    store.apply_batch(&ops);
    assert!(store.get(&vec![1]).is_none());
    assert_eq!(store.get(&vec![2]), Some(&vec![21]));
}
