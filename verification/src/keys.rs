//! The typed key namespace: one discriminant byte per entity type, a
//! deterministic byte encoding of each structured key, and proofs that the
//! encodings are injective and that distinct namespaces never collide.

use vstd::prelude::*;
use crate::bytes::{is_prefix_of, lemma_u16_be_round_trip, lemma_u64_be_round_trip, u16_be, u16_to_be, u64_be, u64_to_be};

verus! {

/// One-byte discriminant of each entity namespace in the store.
#[derive(Clone, Copy, Debug, PartialEq, Eq, Structural)]
pub enum DbKeyPrefix {
    NoteNonce,
    ProposedPartialSig,
    ReceivedPartialSig,
    OutputOutcome,
    MintAuditItem,
    EcashBackup,
}

pub open spec fn prefix_tag(p: DbKeyPrefix) -> u8 {
    match p {
        DbKeyPrefix::NoteNonce => 0x10,
        DbKeyPrefix::ProposedPartialSig => 0x11,
        DbKeyPrefix::ReceivedPartialSig => 0x12,
        DbKeyPrefix::OutputOutcome => 0x13,
        DbKeyPrefix::MintAuditItem => 0x14,
        DbKeyPrefix::EcashBackup => 0x15,
    }
}

impl DbKeyPrefix {
    pub fn tag(&self) -> (r: u8)
        ensures
            r == prefix_tag(*self),
    {
        match self {
            DbKeyPrefix::NoteNonce => 0x10,
            DbKeyPrefix::ProposedPartialSig => 0x11,
            DbKeyPrefix::ReceivedPartialSig => 0x12,
            DbKeyPrefix::OutputOutcome => 0x13,
            DbKeyPrefix::MintAuditItem => 0x14,
            DbKeyPrefix::EcashBackup => 0x15,
        }
    }

    /// Every namespace discriminant, in tag order.
    pub fn all() -> (r: Vec<DbKeyPrefix>)
        ensures
            r@ == seq![
                DbKeyPrefix::NoteNonce,
                DbKeyPrefix::ProposedPartialSig,
                DbKeyPrefix::ReceivedPartialSig,
                DbKeyPrefix::OutputOutcome,
                DbKeyPrefix::MintAuditItem,
                DbKeyPrefix::EcashBackup,
            ],
    {
        let mut r: Vec<DbKeyPrefix> = Vec::new();
        r.push(DbKeyPrefix::NoteNonce);
        r.push(DbKeyPrefix::ProposedPartialSig);
        r.push(DbKeyPrefix::ReceivedPartialSig);
        r.push(DbKeyPrefix::OutputOutcome);
        r.push(DbKeyPrefix::MintAuditItem);
        r.push(DbKeyPrefix::EcashBackup);
        proof {
            assert(r@ =~= seq![
                DbKeyPrefix::NoteNonce,
                DbKeyPrefix::ProposedPartialSig,
                DbKeyPrefix::ReceivedPartialSig,
                DbKeyPrefix::OutputOutcome,
                DbKeyPrefix::MintAuditItem,
                DbKeyPrefix::EcashBackup,
            ]);
        }
        r
    }
}

/// A one-time note nonce; its presence in the registry means "already spent".
#[derive(Clone, Debug)]
pub struct Nonce(pub Vec<u8>);

/// One committee member contributing a partial signature.
#[derive(Clone, Copy, Debug, PartialEq, Eq, Structural)]
pub struct PeerId(pub u16);

/// Identifies one requested output within a transaction.
#[derive(Clone, Copy, Debug)]
pub struct OutPoint {
    pub txid: [u8; 32],
    pub out_idx: u64,
}

#[derive(Clone, Debug)]
pub struct NonceKey(pub Nonce);

#[derive(Clone, Copy, Debug)]
pub struct NonceKeyPrefix;

#[derive(Clone, Copy, Debug)]
pub struct ProposedPartialSignatureKey {
    pub out_point: OutPoint,
}

#[derive(Clone, Copy, Debug)]
pub struct ProposedPartialSignaturesKeyPrefix;

#[derive(Clone, Copy, Debug)]
pub struct ReceivedPartialSignatureKey {
    pub request_id: OutPoint,
    pub peer_id: PeerId,
}

#[derive(Clone, Copy, Debug)]
pub struct ReceivedPartialSignaturesKeyPrefix;

#[derive(Clone, Copy, Debug)]
pub struct ReceivedPartialSignatureKeyOutputPrefix {
    pub request_id: OutPoint,
}

/// Transaction id and output index identifying an output outcome.
#[derive(Clone, Copy, Debug)]
pub struct OutputOutcomeKey(pub OutPoint);

#[derive(Clone, Copy, Debug)]
pub struct OutputOutcomeKeyPrefix;

/// The amounts of issued (signed) and redeemed (verified) notes for auditing.
#[derive(Clone, Debug)]
pub enum MintAuditItemKey {
    Issuance(OutPoint),
    IssuanceTotal,
    Redemption(NonceKey),
    RedemptionTotal,
}

#[derive(Clone, Copy, Debug)]
pub struct MintAuditItemKeyPrefix;

/// Key under which a user's encrypted backup is stored: the user's
/// 32-byte public identity.
#[derive(Clone, Copy, Debug)]
pub struct EcashBackupKey(pub [u8; 32]);

#[derive(Clone, Copy, Debug)]
pub struct EcashBackupKeyPrefix;

/// A user's backup: the time it was received and the opaque encrypted payload.
#[derive(Clone, Debug)]
pub struct ECashUserBackupSnapshot {
    pub timestamp: u64,
    pub data: Vec<u8>,
}

// ---------------------------------------------------------------------------
// Byte encodings, one scheme per namespace.
// ---------------------------------------------------------------------------

pub open spec fn outpoint_enc(txid: Seq<u8>, out_idx: u64) -> Seq<u8> {
    txid + u64_be(out_idx)
}

pub open spec fn nonce_key_enc(n: Seq<u8>) -> Seq<u8> {
    seq![0x10u8] + n
}

pub open spec fn proposed_key_enc(txid: Seq<u8>, out_idx: u64) -> Seq<u8> {
    seq![0x11u8] + outpoint_enc(txid, out_idx)
}

pub open spec fn received_key_enc(txid: Seq<u8>, out_idx: u64, peer: u16) -> Seq<u8> {
    seq![0x12u8] + outpoint_enc(txid, out_idx) + u16_be(peer)
}

/// Prefix shared by every peer's share for one output.
pub open spec fn received_prefix_enc(txid: Seq<u8>, out_idx: u64) -> Seq<u8> {
    seq![0x12u8] + outpoint_enc(txid, out_idx)
}

pub open spec fn outcome_key_enc(txid: Seq<u8>, out_idx: u64) -> Seq<u8> {
    seq![0x13u8] + outpoint_enc(txid, out_idx)
}

pub open spec fn audit_issuance_key_enc(txid: Seq<u8>, out_idx: u64) -> Seq<u8> {
    seq![0x14u8, 0x00u8] + outpoint_enc(txid, out_idx)
}

pub open spec fn audit_issuance_total_key() -> Seq<u8> {
    seq![0x14u8, 0x01u8]
}

pub open spec fn audit_redemption_key_enc(n: Seq<u8>) -> Seq<u8> {
    seq![0x14u8, 0x02u8] + n
}

pub open spec fn audit_redemption_total_key() -> Seq<u8> {
    seq![0x14u8, 0x03u8]
}

pub open spec fn backup_key_enc(id: Seq<u8>) -> Seq<u8> {
    seq![0x15u8] + id
}

pub open spec fn audit_key_enc(k: MintAuditItemKey) -> Seq<u8> {
    match k {
        MintAuditItemKey::Issuance(op) => audit_issuance_key_enc(op.txid@, op.out_idx),
        MintAuditItemKey::IssuanceTotal => audit_issuance_total_key(),
        MintAuditItemKey::Redemption(nk) => audit_redemption_key_enc(nk.0.0@),
        MintAuditItemKey::RedemptionTotal => audit_redemption_total_key(),
    }
}

fn push_byte(out: &mut Vec<u8>, b: u8)
    ensures
        final(out)@ == old(out)@ + seq![b],
{
    out.push(b);
}

fn push_all(out: &mut Vec<u8>, more: Vec<u8>)
    ensures
        final(out)@ == old(out)@ + more@,
{
    let mut more = more;
    out.append(&mut more);
}

fn push_txid(out: &mut Vec<u8>, txid: &[u8; 32])
    ensures
        final(out)@ == old(out)@ + txid@,
{
    let mut i: usize = 0;
    while i < 32
        invariant
            i <= 32,
            out@ == old(out)@ + txid@.subrange(0, i as int),
        decreases 32 - i,
    {
        let b = txid[i];
        out.push(b);
        i = i + 1;
        proof {
            assert(old(out)@ + txid@.subrange(0, i - 1) + seq![txid@[i - 1]] =~= old(out)@
                + txid@.subrange(0, i as int));
        }
    }
    proof {
        assert(txid@.subrange(0, 32) =~= txid@);
    }
}

impl OutPoint {
    pub fn encode(&self) -> (r: Vec<u8>)
        ensures
            r@ == outpoint_enc(self.txid@, self.out_idx),
    {
        let mut r: Vec<u8> = Vec::new();
        push_txid(&mut r, &self.txid);
        push_all(&mut r, u64_to_be(self.out_idx));
        proof {
            assert(Seq::<u8>::empty() + self.txid@ =~= self.txid@);
        }
        r
    }
}

fn tagged_key(tag: u8, rest: Vec<u8>) -> (r: Vec<u8>)
    ensures
        r@ == seq![tag] + rest@,
{
    let mut r: Vec<u8> = Vec::new();
    push_byte(&mut r, tag);
    push_all(&mut r, rest);
    proof {
        assert(Seq::<u8>::empty() + seq![tag] =~= seq![tag]);
    }
    r
}

impl NonceKey {
    pub fn to_bytes(&self) -> (r: Vec<u8>)
        ensures
            r@ == nonce_key_enc(self.0.0@),
    {
        tagged_key(0x10, crate::bytes::copy_bytes(&self.0.0))
    }
}

impl NonceKeyPrefix {
    pub fn to_bytes(&self) -> (r: Vec<u8>)
        ensures
            r@ == seq![0x10u8],
    {
        tagged_key(0x10, Vec::new())
    }
}

impl ProposedPartialSignatureKey {
    pub fn to_bytes(&self) -> (r: Vec<u8>)
        ensures
            r@ == proposed_key_enc(self.out_point.txid@, self.out_point.out_idx),
    {
        tagged_key(0x11, self.out_point.encode())
    }
}

impl ProposedPartialSignaturesKeyPrefix {
    pub fn to_bytes(&self) -> (r: Vec<u8>)
        ensures
            r@ == seq![0x11u8],
    {
        tagged_key(0x11, Vec::new())
    }
}

impl ReceivedPartialSignatureKey {
    pub fn to_bytes(&self) -> (r: Vec<u8>)
        ensures
            r@ == received_key_enc(self.request_id.txid@, self.request_id.out_idx,
                self.peer_id.0),
    {
        let mut r = tagged_key(0x12, self.request_id.encode());
        push_all(&mut r, u16_to_be(self.peer_id.0));
        r
    }
}

impl ReceivedPartialSignaturesKeyPrefix {
    pub fn to_bytes(&self) -> (r: Vec<u8>)
        ensures
            r@ == seq![0x12u8],
    {
        tagged_key(0x12, Vec::new())
    }
}

impl ReceivedPartialSignatureKeyOutputPrefix {
    pub fn to_bytes(&self) -> (r: Vec<u8>)
        ensures
            r@ == received_prefix_enc(self.request_id.txid@, self.request_id.out_idx),
    {
        tagged_key(0x12, self.request_id.encode())
    }
}

impl OutputOutcomeKey {
    pub fn to_bytes(&self) -> (r: Vec<u8>)
        ensures
            r@ == outcome_key_enc(self.0.txid@, self.0.out_idx),
    {
        tagged_key(0x13, self.0.encode())
    }
}

impl OutputOutcomeKeyPrefix {
    pub fn to_bytes(&self) -> (r: Vec<u8>)
        ensures
            r@ == seq![0x13u8],
    {
        tagged_key(0x13, Vec::new())
    }
}

impl MintAuditItemKey {
    pub fn to_bytes(&self) -> (r: Vec<u8>)
        ensures
            r@ == audit_key_enc(*self),
    {
        let mut r: Vec<u8> = Vec::new();
        push_byte(&mut r, 0x14);
        match self {
            MintAuditItemKey::Issuance(op) => {
                push_byte(&mut r, 0x00);
                push_all(&mut r, op.encode());
                proof {
                    assert(Seq::<u8>::empty() + seq![0x14u8] + seq![0x00u8] =~= seq![
                        0x14u8,
                        0x00u8,
                    ]);
                }
            }
            MintAuditItemKey::IssuanceTotal => {
                push_byte(&mut r, 0x01);
                proof {
                    assert(Seq::<u8>::empty() + seq![0x14u8] + seq![0x01u8] =~= seq![
                        0x14u8,
                        0x01u8,
                    ]);
                }
            }
            MintAuditItemKey::Redemption(nk) => {
                push_byte(&mut r, 0x02);
                push_all(&mut r, crate::bytes::copy_bytes(&nk.0.0));
                proof {
                    assert(Seq::<u8>::empty() + seq![0x14u8] + seq![0x02u8] =~= seq![
                        0x14u8,
                        0x02u8,
                    ]);
                }
            }
            MintAuditItemKey::RedemptionTotal => {
                push_byte(&mut r, 0x03);
                proof {
                    assert(Seq::<u8>::empty() + seq![0x14u8] + seq![0x03u8] =~= seq![
                        0x14u8,
                        0x03u8,
                    ]);
                }
            }
        }
        r
    }
}

impl MintAuditItemKeyPrefix {
    pub fn to_bytes(&self) -> (r: Vec<u8>)
        ensures
            r@ == seq![0x14u8],
    {
        tagged_key(0x14, Vec::new())
    }
}

impl EcashBackupKey {
    pub fn to_bytes(&self) -> (r: Vec<u8>)
        ensures
            r@ == backup_key_enc(self.0@),
    {
        let mut r: Vec<u8> = Vec::new();
        push_byte(&mut r, 0x15);
        push_txid(&mut r, &self.0);
        proof {
            assert(Seq::<u8>::empty() + seq![0x15u8] =~= seq![0x15u8]);
        }
        r
    }
}

impl EcashBackupKeyPrefix {
    pub fn to_bytes(&self) -> (r: Vec<u8>)
        ensures
            r@ == seq![0x15u8],
    {
        tagged_key(0x15, Vec::new())
    }
}

// ---------------------------------------------------------------------------
// Injectivity: distinct logical keys never collide on bytes.
// ---------------------------------------------------------------------------

/// Nonce keys are injective in the nonce.
pub proof fn lemma_nonce_key_injective(a: Seq<u8>, b: Seq<u8>)
    requires
        nonce_key_enc(a) == nonce_key_enc(b),
    ensures
        a == b,
{
    assert(nonce_key_enc(a).skip(1) =~= a);
    assert(nonce_key_enc(b).skip(1) =~= b);
}

/// Output-point encodings are injective in transaction id and index.
pub proof fn lemma_outpoint_enc_injective(t1: Seq<u8>, i1: u64, t2: Seq<u8>, i2: u64)
    requires
        t1.len() == 32,
        t2.len() == 32,
        outpoint_enc(t1, i1) == outpoint_enc(t2, i2),
    ensures
        t1 == t2,
        i1 == i2,
{
    assert(outpoint_enc(t1, i1).subrange(0, 32) =~= t1);
    assert(outpoint_enc(t2, i2).subrange(0, 32) =~= t2);
    assert(outpoint_enc(t1, i1).subrange(32, 40) =~= u64_be(i1));
    assert(outpoint_enc(t2, i2).subrange(32, 40) =~= u64_be(i2));
    lemma_u64_be_round_trip(i1);
    lemma_u64_be_round_trip(i2);
}

/// Share keys are injective in output point and peer.
pub proof fn lemma_received_key_injective(t1: Seq<u8>, i1: u64, p1: u16, t2: Seq<u8>, i2: u64, p2: u16)
    requires
        t1.len() == 32,
        t2.len() == 32,
        received_key_enc(t1, i1, p1) == received_key_enc(t2, i2, p2),
    ensures
        t1 == t2,
        i1 == i2,
        p1 == p2,
{
    assert(received_key_enc(t1, i1, p1).subrange(1, 41) =~= outpoint_enc(t1, i1));
    assert(received_key_enc(t2, i2, p2).subrange(1, 41) =~= outpoint_enc(t2, i2));
    lemma_outpoint_enc_injective(t1, i1, t2, i2);
    assert(received_key_enc(t1, i1, p1).subrange(41, 43) =~= u16_be(p1));
    assert(received_key_enc(t2, i2, p2).subrange(41, 43) =~= u16_be(p2));
    lemma_u16_be_round_trip(p1);
    lemma_u16_be_round_trip(p2);
}

/// Itemised redemption keys are injective in the nonce.
pub proof fn lemma_audit_redemption_key_injective(a: Seq<u8>, b: Seq<u8>)
    requires
        audit_redemption_key_enc(a) == audit_redemption_key_enc(b),
    ensures
        a == b,
{
    assert(audit_redemption_key_enc(a).skip(2) =~= a);
    assert(audit_redemption_key_enc(b).skip(2) =~= b);
}

/// Itemised issuance keys are injective in transaction id and index.
pub proof fn lemma_audit_issuance_key_injective(t1: Seq<u8>, i1: u64, t2: Seq<u8>, i2: u64)
    requires
        audit_issuance_key_enc(t1, i1) == audit_issuance_key_enc(t2, i2),
    ensures
        t1 == t2,
        i1 == i2,
{
    let k = audit_issuance_key_enc(t1, i1);
    assert(k.len() == 2 + t1.len() + 8);
    assert(audit_issuance_key_enc(t2, i2).len() == 2 + t2.len() + 8);
    assert(t1.len() == t2.len());
    let n = t1.len() as int;
    assert(k.subrange(2, 2 + n) =~= t1);
    assert(audit_issuance_key_enc(t2, i2).subrange(2, 2 + n) =~= t2);
    assert(k.subrange(2 + n, 2 + n + 8) =~= u64_be(i1));
    assert(audit_issuance_key_enc(t2, i2).subrange(2 + n, 2 + n + 8) =~= u64_be(i2));
    lemma_u64_be_round_trip(i1);
    lemma_u64_be_round_trip(i2);
}

/// A key of fixed share-key length carrying the share prefix of one output
/// is exactly the share key of that output and the peer its tail names.
pub proof fn lemma_received_prefix_parse(k: Seq<u8>, t: Seq<u8>, i: u64)
    requires
        t.len() == 32,
        k.len() == 43,
        is_prefix_of(received_prefix_enc(t, i), k),
    ensures
        k == received_key_enc(t, i, crate::bytes::be_u16(k.subrange(41, 43))),
{
    let p = received_prefix_enc(t, i);
    assert(p.len() == 41);
    let peer = crate::bytes::be_u16(k.subrange(41, 43));
    assert(received_key_enc(t, i, peer) =~= k) by {
        assert(forall|j: int| 0 <= j < 41 ==> k[j] == k.subrange(0, 41)[j]);
        crate::bytes::lemma_be_u16_inverse(k.subrange(41, 43));
        assert(forall|j: int| 41 <= j < 43 ==> k[j] == k.subrange(41, 43)[j - 41]);
    }
}

} // verus!
