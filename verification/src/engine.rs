//! The mint's persistent-state engine over the ordered store: nonce registry,
//! signature-share collection, outcome cache, audit ledger and backup store.
//!
//! All operations go through one `MintDb`, whose invariant ties the audit
//! totals to the itemised audit entries and keeps every stored key and value
//! well formed for its namespace.

use vstd::prelude::*;
use crate::bytes::{be_u64, copy_bytes, copy_tail, is_prefix_of, lemma_u64_be_round_trip,
    u64_be, u64_from_be, u16_from_be, u64_to_be};
use crate::keys::{audit_issuance_key_enc, audit_issuance_total_key, audit_redemption_key_enc,
    audit_redemption_total_key, backup_key_enc, lemma_audit_redemption_key_injective,
    lemma_received_key_injective, lemma_received_prefix_parse, nonce_key_enc, outcome_key_enc,
    proposed_key_enc, received_key_enc, received_prefix_enc, ECashUserBackupSnapshot,
    EcashBackupKey, MintAuditItemKey, Nonce, NonceKey, OutPoint, OutputOutcomeKey, PeerId,
    ProposedPartialSignatureKey, ReceivedPartialSignatureKey,
    ReceivedPartialSignatureKeyOutputPrefix};
use crate::store::{kv_map, lemma_kv_map_dom, lemma_kv_map_value, lemma_sorted_distinct,
    prefix_count, KvStore};

verus! {

/// Errors surfaced by the engine. A stale backup is a silent no-op rather
/// than an error, an invalid share is recorded inside a `Failed` outcome,
/// and a stored value that does not decode for its namespace cannot arise:
/// the engine invariant keeps every stored entry well formed.
#[derive(Clone, Copy, Debug, PartialEq, Eq, Structural)]
pub enum MintError {
    /// The nonce was already spent; the operation is rejected.
    DoubleSpend,
    /// An outcome for this output already exists; overwriting is refused.
    DuplicateOutcome,
    /// A running audit total would no longer fit in 64 bits.
    AuditOverflow,
}

/// The terminal result of one requested output.
#[derive(Debug)]
pub enum OutputOutcome {
    /// The combined blind signature.
    Finalized { sig: Vec<u8> },
    /// Combination failed; the diagnosed reason, as the combiner reported it.
    Failed { reason: Vec<u8> },
}

/// What a client sees when querying an output.
#[derive(Debug)]
pub enum OutputStatus {
    /// No share and no outcome: the output was never requested here.
    Unknown,
    /// Shares are being collected; no outcome exists yet.
    Pending { distinct_peers: usize },
    /// A terminal outcome is recorded.
    Decided(OutputOutcome),
}

/// Result of submitting one signature share.
#[derive(Clone, Copy, Debug, PartialEq, Eq, Structural)]
pub enum SubmitOutcome {
    /// The output already has a terminal outcome; nothing changed.
    AlreadyDecided,
    /// The share was stored; this many distinct peers now have one.
    Collecting { distinct_peers: usize },
}

pub open spec fn is_finalized(o: OutputOutcome) -> bool {
    match o {
        OutputOutcome::Finalized { .. } => true,
        OutputOutcome::Failed { .. } => false,
    }
}

/// Byte encoding of a stored outcome: a tag byte, then the payload.
pub open spec fn outcome_enc(o: OutputOutcome) -> Seq<u8> {
    match o {
        OutputOutcome::Finalized { sig } => seq![0x01u8] + sig@,
        OutputOutcome::Failed { reason } => seq![0x00u8] + reason@,
    }
}

/// Byte encoding of a stored backup: timestamp, then the opaque payload.
pub open spec fn snapshot_enc(ts: u64, data: Seq<u8>) -> Seq<u8> {
    u64_be(ts) + data
}

// ---------------------------------------------------------------------------
// State predicates over the abstract store map.
// ---------------------------------------------------------------------------

pub open spec fn spent_in(m: Map<Seq<u8>, Seq<u8>>, n: Seq<u8>) -> bool {
    m.dom().contains(nonce_key_enc(n))
}

pub open spec fn outcome_in(m: Map<Seq<u8>, Seq<u8>>, t: Seq<u8>, ix: u64) -> bool {
    m.dom().contains(outcome_key_enc(t, ix))
}

pub open spec fn has_share_in(m: Map<Seq<u8>, Seq<u8>>, t: Seq<u8>, ix: u64, p: u16) -> bool {
    m.dom().contains(received_key_enc(t, ix, p))
}

pub open spec fn backup_in(m: Map<Seq<u8>, Seq<u8>>, id: Seq<u8>) -> bool {
    m.dom().contains(backup_key_enc(id))
}

pub open spec fn stored_backup_ts(m: Map<Seq<u8>, Seq<u8>>, id: Seq<u8>) -> u64
    recommends
        backup_in(m, id),
{
    be_u64(m[backup_key_enc(id)].subrange(0, 8))
}

/// A backup write is fresh when no snapshot exists or the stored one is older.
pub open spec fn backup_fresh(m: Map<Seq<u8>, Seq<u8>>, id: Seq<u8>, ts: u64) -> bool {
    !backup_in(m, id) || stored_backup_ts(m, id) < ts
}

/// A running total, read as zero while no entry exists.
pub open spec fn total_of(m: Map<Seq<u8>, Seq<u8>>, k: Seq<u8>) -> int {
    if m.dom().contains(k) {
        be_u64(m[k]) as int
    } else {
        0
    }
}

// ---------------------------------------------------------------------------
// Operation effects on the abstract map.
// ---------------------------------------------------------------------------

pub open spec fn spend_effect(m: Map<Seq<u8>, Seq<u8>>, n: Seq<u8>) -> Map<Seq<u8>, Seq<u8>> {
    m.insert(nonce_key_enc(n), Seq::<u8>::empty())
}

pub open spec fn redeem_overflow(m: Map<Seq<u8>, Seq<u8>>, amount: u64) -> bool {
    total_of(m, audit_redemption_total_key()) + amount > u64::MAX
}

/// Marker, itemised redemption entry and bumped running total, as one batch.
pub open spec fn redeem_effect(m: Map<Seq<u8>, Seq<u8>>, n: Seq<u8>, amount: u64) -> Map<
    Seq<u8>,
    Seq<u8>,
> {
    m.insert(nonce_key_enc(n), Seq::<u8>::empty()).insert(audit_redemption_key_enc(n),
        u64_be(amount)).insert(audit_redemption_total_key(),
        u64_be((total_of(m, audit_redemption_total_key()) + amount) as u64))
}

pub open spec fn submit_effect(m: Map<Seq<u8>, Seq<u8>>, t: Seq<u8>, ix: u64, p: u16, share: Seq<
    u8,
>) -> Map<Seq<u8>, Seq<u8>> {
    if outcome_in(m, t, ix) {
        m
    } else {
        m.insert(received_key_enc(t, ix, p), share)
    }
}

pub open spec fn finalize_overflow(m: Map<Seq<u8>, Seq<u8>>, o: OutputOutcome, amount: u64) -> bool {
    is_finalized(o) && total_of(m, audit_issuance_total_key()) + amount > u64::MAX
}

/// Outcome write, plus the issuance audit entry and total when finalized.
pub open spec fn finalize_effect(m: Map<Seq<u8>, Seq<u8>>, t: Seq<u8>, ix: u64, o: OutputOutcome, amount: u64) -> Map<
    Seq<u8>,
    Seq<u8>,
> {
    if is_finalized(o) {
        m.insert(outcome_key_enc(t, ix), outcome_enc(o)).insert(audit_issuance_key_enc(t, ix),
            u64_be(amount)).insert(audit_issuance_total_key(),
            u64_be((total_of(m, audit_issuance_total_key()) + amount) as u64))
    } else {
        m.insert(outcome_key_enc(t, ix), outcome_enc(o))
    }
}

pub open spec fn backup_effect(m: Map<Seq<u8>, Seq<u8>>, id: Seq<u8>, ts: u64, data: Seq<u8>) -> Map<
    Seq<u8>,
    Seq<u8>,
> {
    if backup_fresh(m, id, ts) {
        m.insert(backup_key_enc(id), snapshot_enc(ts, data))
    } else {
        m
    }
}

// ---------------------------------------------------------------------------
// The engine invariant.
// ---------------------------------------------------------------------------

pub open spec fn is_issuance_item_key(k: Seq<u8>) -> bool {
    k.len() >= 2 && k[0] == 0x14 && k[1] == 0x00
}

pub open spec fn is_redemption_item_key(k: Seq<u8>) -> bool {
    k.len() >= 2 && k[0] == 0x14 && k[1] == 0x02
}

/// Shape every stored entry must have, by its namespace byte.
pub open spec fn entry_wf(e: (Seq<u8>, Seq<u8>)) -> bool {
    &&& e.0.len() >= 1
    &&& (e.0[0] == 0x12 ==> e.0.len() == 43)
    &&& (e.0[0] == 0x13 ==> e.1.len() >= 1 && (e.1[0] == 0x00 || e.1[0] == 0x01))
    &&& (e.0[0] == 0x14 ==> e.0.len() >= 2 && e.1.len() == 8)
    &&& (e.0[0] == 0x15 ==> e.0.len() == 33 && e.1.len() >= 8)
}

pub open spec fn keys_wf(s: Seq<(Seq<u8>, Seq<u8>)>) -> bool {
    forall|i: int| 0 <= i < s.len() ==> entry_wf(#[trigger] s[i])
}

/// Itemised audit entries exist only beside the state they account for.
pub open spec fn links_ok(m: Map<Seq<u8>, Seq<u8>>) -> bool {
    &&& forall|n: Seq<u8>|
        #[trigger] m.dom().contains(audit_redemption_key_enc(n)) ==> m.dom().contains(
            nonce_key_enc(n))
    &&& forall|t: Seq<u8>, ix: u64|
        #[trigger] m.dom().contains(audit_issuance_key_enc(t, ix)) ==> m.dom().contains(
            outcome_key_enc(t, ix))
}

/// Sum of all itemised issuance amounts in the store.
pub open spec fn issuance_sum(s: Seq<(Seq<u8>, Seq<u8>)>) -> int
    decreases s.len(),
{
    if s.len() == 0 {
        0
    } else {
        issuance_sum(s.drop_last()) + if is_issuance_item_key(s.last().0) {
            be_u64(s.last().1) as int
        } else {
            0int
        }
    }
}

/// Sum of all itemised redemption amounts in the store.
pub open spec fn redemption_sum(s: Seq<(Seq<u8>, Seq<u8>)>) -> int
    decreases s.len(),
{
    if s.len() == 0 {
        0
    } else {
        redemption_sum(s.drop_last()) + if is_redemption_item_key(s.last().0) {
            be_u64(s.last().1) as int
        } else {
            0int
        }
    }
}

proof fn lemma_issuance_sum_insert(s: Seq<(Seq<u8>, Seq<u8>)>, i: int, e: (Seq<u8>, Seq<u8>))
    requires
        0 <= i <= s.len(),
    ensures
        issuance_sum(s.insert(i, e)) == issuance_sum(s) + if is_issuance_item_key(e.0) {
            be_u64(e.1) as int
        } else {
            0int
        },
    decreases s.len(),
{
    if i == s.len() {
        assert(s.insert(i, e).drop_last() =~= s);
        assert(s.insert(i, e).last() == e);
    } else {
        let s2 = s.insert(i, e);
        assert(s2.last() == s.last());
        assert(s2.drop_last() =~= s.drop_last().insert(i, e));
        lemma_issuance_sum_insert(s.drop_last(), i, e);
    }
}

proof fn lemma_issuance_sum_update(s: Seq<(Seq<u8>, Seq<u8>)>, i: int, e: (Seq<u8>, Seq<u8>))
    requires
        0 <= i < s.len(),
    ensures
        issuance_sum(s.update(i, e)) == issuance_sum(s) - (if is_issuance_item_key(s[i].0) {
            be_u64(s[i].1) as int
        } else {
            0int
        }) + (if is_issuance_item_key(e.0) {
            be_u64(e.1) as int
        } else {
            0int
        }),
    decreases s.len(),
{
    let s2 = s.update(i, e);
    if i == s.len() - 1 {
        assert(s2.drop_last() =~= s.drop_last());
        assert(s2.last() == e);
    } else {
        assert(s2.last() == s.last());
        assert(s2.drop_last() =~= s.drop_last().update(i, e));
        assert(s.drop_last()[i] == s[i]);
        lemma_issuance_sum_update(s.drop_last(), i, e);
    }
}

proof fn lemma_redemption_sum_insert(s: Seq<(Seq<u8>, Seq<u8>)>, i: int, e: (Seq<u8>, Seq<u8>))
    requires
        0 <= i <= s.len(),
    ensures
        redemption_sum(s.insert(i, e)) == redemption_sum(s) + if is_redemption_item_key(e.0) {
            be_u64(e.1) as int
        } else {
            0int
        },
    decreases s.len(),
{
    if i == s.len() {
        assert(s.insert(i, e).drop_last() =~= s);
        assert(s.insert(i, e).last() == e);
    } else {
        let s2 = s.insert(i, e);
        assert(s2.last() == s.last());
        assert(s2.drop_last() =~= s.drop_last().insert(i, e));
        lemma_redemption_sum_insert(s.drop_last(), i, e);
    }
}

proof fn lemma_redemption_sum_update(s: Seq<(Seq<u8>, Seq<u8>)>, i: int, e: (Seq<u8>, Seq<u8>))
    requires
        0 <= i < s.len(),
    ensures
        redemption_sum(s.update(i, e)) == redemption_sum(s) - (if is_redemption_item_key(s[i].0) {
            be_u64(s[i].1) as int
        } else {
            0int
        }) + (if is_redemption_item_key(e.0) {
            be_u64(e.1) as int
        } else {
            0int
        }),
    decreases s.len(),
{
    let s2 = s.update(i, e);
    if i == s.len() - 1 {
        assert(s2.drop_last() =~= s.drop_last());
        assert(s2.last() == e);
    } else {
        assert(s2.last() == s.last());
        assert(s2.drop_last() =~= s.drop_last().update(i, e));
        assert(s.drop_last()[i] == s[i]);
        lemma_redemption_sum_update(s.drop_last(), i, e);
    }
}

/// The persistent-state engine.
pub struct MintDb {
    store: KvStore,
}

impl View for MintDb {
    type V = Map<Seq<u8>, Seq<u8>>;

    closed spec fn view(&self) -> Map<Seq<u8>, Seq<u8>> {
        self.store@
    }
}

impl MintDb {
    /// The underlying entries, for stating the audit sums.
    pub closed spec fn raw(self) -> Seq<(Seq<u8>, Seq<u8>)> {
        self.store.raw()
    }

    /// Well-formedness: sorted store, well-shaped entries, audit entries
    /// linked to their state, and both running totals equal to their sums.
    pub closed spec fn inv(self) -> bool {
        &&& self.store.wf()
        &&& self@ == kv_map(self.raw())
        &&& keys_wf(self.raw())
        &&& links_ok(self@)
        &&& total_of(self@, audit_issuance_total_key()) == issuance_sum(self.raw())
        &&& total_of(self@, audit_redemption_total_key()) == redemption_sum(self.raw())
    }

    pub fn new() -> (r: MintDb)
        ensures
            r.inv(),
            r@ == Map::<Seq<u8>, Seq<u8>>::empty(),
    {
        let r = MintDb { store: KvStore::new() };
        proof {
            assert(!r@.dom().contains(audit_issuance_total_key()));
            assert(!r@.dom().contains(audit_redemption_total_key()));
        }
        r
    }

    /// Whether this nonce was already redeemed.
    pub fn is_spent(&self, nonce: &Nonce) -> (r: bool)
        requires
            self.inv(),
        ensures
            r == spent_in(self@, nonce.0@),
    {
        let kb = NonceKey(Nonce(copy_bytes(&nonce.0))).to_bytes();
        match self.store.get(&kb) {
            Some(_) => true,
            None => false,
        }
    }

    /// Marks a nonce as spent; fails if it already was. The first call for a
    /// nonce succeeds, every later one is rejected.
    pub fn record_spend(&mut self, nonce: &Nonce) -> (r: Result<(), MintError>)
        requires
            old(self).inv(),
        ensures
            final(self).inv(),
            match r {
                Ok(()) => !spent_in(old(self)@, nonce.0@) && final(self)@ == spend_effect(
                    old(self)@, nonce.0@) && spent_in(final(self)@, nonce.0@),
                Err(e) => e == MintError::DoubleSpend && spent_in(old(self)@, nonce.0@) && final(
                    self)@ == old(self)@,
            },
    {
        let kb = NonceKey(Nonce(copy_bytes(&nonce.0))).to_bytes();
        match self.store.get(&kb) {
            Some(_) => Err(MintError::DoubleSpend),
            None => {
                let ghost pre = *self;
                let gi = self.store.put(kb, Vec::new());
                proof {
                    lemma_inv_put_plain(pre, *self, nonce_key_enc(nonce.0@),
                        Seq::<u8>::empty(), gi@);
                }
                Ok(())
            }
        }
    }
}

/// Inserting or replacing an entry outside the audit namespace keeps the
/// engine invariant: neither sum, total nor link is affected.
proof fn lemma_inv_put_plain(pre: MintDb, post: MintDb, k: Seq<u8>, v: Seq<u8>, gi: int)
    requires
        pre.inv(),
        entry_wf((k, v)),
        k.len() >= 1,
        k[0] != 0x14,
        post.store.wf(),
        post@ == pre@.insert(k, v),
        (pre@.dom().contains(k) ==> 0 <= gi < pre.raw().len() && pre.raw()[gi].0 == k
            && post.raw() == pre.raw().update(gi, (k, v))),
        (!pre@.dom().contains(k) ==> 0 <= gi <= pre.raw().len() && post.raw()
            == pre.raw().insert(gi, (k, v))),
    ensures
        post.inv(),
{
    let itk = audit_issuance_total_key();
    let rtk = audit_redemption_total_key();
    assert(itk[0] == 0x14 && rtk[0] == 0x14);
    assert(k != itk && k != rtk);
    assert(!is_issuance_item_key(k) && !is_redemption_item_key(k));
    if pre@.dom().contains(k) {
        lemma_issuance_sum_update(pre.raw(), gi, (k, v));
        lemma_redemption_sum_update(pre.raw(), gi, (k, v));
        lemma_keys_wf_update(pre.raw(), gi, (k, v));
    } else {
        lemma_issuance_sum_insert(pre.raw(), gi, (k, v));
        lemma_redemption_sum_insert(pre.raw(), gi, (k, v));
        lemma_keys_wf_insert(pre.raw(), gi, (k, v));
    }
    assert(total_of(post@, itk) == total_of(pre@, itk));
    assert(total_of(post@, rtk) == total_of(pre@, rtk));
    assert forall|n: Seq<u8>| #[trigger] post@.dom().contains(audit_redemption_key_enc(n))
        implies post@.dom().contains(nonce_key_enc(n)) by {
        assert(audit_redemption_key_enc(n)[0] == 0x14);
        assert(audit_redemption_key_enc(n) != k);
        assert(pre@.dom().contains(audit_redemption_key_enc(n)));
    }
    assert forall|t: Seq<u8>, ix: u64| #[trigger] post@.dom().contains(audit_issuance_key_enc(
        t, ix)) implies post@.dom().contains(outcome_key_enc(t, ix)) by {
        assert(audit_issuance_key_enc(t, ix)[0] == 0x14);
        assert(audit_issuance_key_enc(t, ix) != k);
        assert(pre@.dom().contains(audit_issuance_key_enc(t, ix)));
    }
}

proof fn lemma_keys_wf_insert(s: Seq<(Seq<u8>, Seq<u8>)>, i: int, e: (Seq<u8>, Seq<u8>))
    requires
        keys_wf(s),
        entry_wf(e),
        0 <= i <= s.len(),
    ensures
        keys_wf(s.insert(i, e)),
{
    let s2 = s.insert(i, e);
    assert forall|j: int| 0 <= j < s2.len() implies entry_wf(#[trigger] s2[j]) by {
        if j < i {
            assert(s2[j] == s[j]);
        } else if j > i {
            assert(s2[j] == s[j - 1]);
        }
    }
}

proof fn lemma_keys_wf_update(s: Seq<(Seq<u8>, Seq<u8>)>, i: int, e: (Seq<u8>, Seq<u8>))
    requires
        keys_wf(s),
        entry_wf(e),
        0 <= i < s.len(),
    ensures
        keys_wf(s.update(i, e)),
{
    let s2 = s.update(i, e);
    assert forall|j: int| 0 <= j < s2.len() implies entry_wf(#[trigger] s2[j]) by {
        if j != i {
            assert(s2[j] == s[j]);
        }
    }
}

proof fn lemma_links_insert_other(m: Map<Seq<u8>, Seq<u8>>, k: Seq<u8>, v: Seq<u8>)
    requires
        links_ok(m),
        !is_redemption_item_key(k),
        !is_issuance_item_key(k),
    ensures
        links_ok(m.insert(k, v)),
{
    let m2 = m.insert(k, v);
    assert forall|n: Seq<u8>| #[trigger] m2.dom().contains(audit_redemption_key_enc(n)) implies
        m2.dom().contains(nonce_key_enc(n)) by {
        assert(audit_redemption_key_enc(n)[0] == 0x14 && audit_redemption_key_enc(n)[1] == 0x02);
        assert(audit_redemption_key_enc(n) != k);
        assert(m.dom().contains(audit_redemption_key_enc(n)));
    }
    assert forall|t: Seq<u8>, ix: u64| #[trigger] m2.dom().contains(audit_issuance_key_enc(t, ix))
        implies m2.dom().contains(outcome_key_enc(t, ix)) by {
        assert(audit_issuance_key_enc(t, ix)[0] == 0x14 && audit_issuance_key_enc(t, ix)[1]
            == 0x00);
        assert(audit_issuance_key_enc(t, ix) != k);
        assert(m.dom().contains(audit_issuance_key_enc(t, ix)));
    }
}

proof fn lemma_links_insert_redemption_item(m: Map<Seq<u8>, Seq<u8>>, n: Seq<u8>, v: Seq<u8>)
    requires
        links_ok(m),
        m.dom().contains(nonce_key_enc(n)),
    ensures
        links_ok(m.insert(audit_redemption_key_enc(n), v)),
{
    let m2 = m.insert(audit_redemption_key_enc(n), v);
    assert forall|n2: Seq<u8>| #[trigger] m2.dom().contains(audit_redemption_key_enc(n2)) implies
        m2.dom().contains(nonce_key_enc(n2)) by {
        if audit_redemption_key_enc(n2) == audit_redemption_key_enc(n) {
            lemma_audit_redemption_key_injective(n2, n);
        } else {
            assert(m.dom().contains(audit_redemption_key_enc(n2)));
        }
    }
    assert forall|t: Seq<u8>, ix: u64| #[trigger] m2.dom().contains(audit_issuance_key_enc(t, ix))
        implies m2.dom().contains(outcome_key_enc(t, ix)) by {
        assert(audit_issuance_key_enc(t, ix)[1] == 0x00 && audit_redemption_key_enc(n)[1] == 0x02);
        assert(audit_issuance_key_enc(t, ix) != audit_redemption_key_enc(n));
        assert(m.dom().contains(audit_issuance_key_enc(t, ix)));
    }
}

proof fn lemma_links_insert_issuance_item(m: Map<Seq<u8>, Seq<u8>>, t: Seq<u8>, ix: u64, v: Seq<u8>)
    requires
        links_ok(m),
        m.dom().contains(outcome_key_enc(t, ix)),
    ensures
        links_ok(m.insert(audit_issuance_key_enc(t, ix), v)),
{
    let m2 = m.insert(audit_issuance_key_enc(t, ix), v);
    assert forall|n2: Seq<u8>| #[trigger] m2.dom().contains(audit_redemption_key_enc(n2)) implies
        m2.dom().contains(nonce_key_enc(n2)) by {
        assert(audit_redemption_key_enc(n2)[1] == 0x02 && audit_issuance_key_enc(t, ix)[1]
            == 0x00);
        assert(audit_redemption_key_enc(n2) != audit_issuance_key_enc(t, ix));
        assert(m.dom().contains(audit_redemption_key_enc(n2)));
    }
    assert forall|t2: Seq<u8>, ix2: u64| #[trigger] m2.dom().contains(audit_issuance_key_enc(
        t2, ix2)) implies m2.dom().contains(outcome_key_enc(t2, ix2)) by {
        if audit_issuance_key_enc(t2, ix2) == audit_issuance_key_enc(t, ix) {
            crate::keys::lemma_audit_issuance_key_injective(t2, ix2, t, ix);
        } else {
            assert(m.dom().contains(audit_issuance_key_enc(t2, ix2)));
        }
    }
}

/// Every stored value has the shape its namespace demands.
proof fn lemma_value_shape(d: MintDb, k: Seq<u8>)
    requires
        d.inv(),
        d@.dom().contains(k),
    ensures
        entry_wf((k, d@[k])),
{
    lemma_sorted_distinct(d.raw());
    lemma_kv_map_dom(d.raw());
    let a = choose|a: int| 0 <= a < d.raw().len() && (#[trigger] d.raw()[a].0) == k;
    lemma_kv_map_value(d.raw(), a);
    assert(entry_wf(d.raw()[a]));
}

impl MintDb {
    /// Reads a running audit total; absent means zero.
    fn read_total(&self, key: &Vec<u8>) -> (r: u64)
        requires
            self.inv(),
            key@ == audit_issuance_total_key() || key@ == audit_redemption_total_key(),
        ensures
            r as int == total_of(self@, key@),
    {
        match self.store.get(key) {
            None => 0,
            Some(v) => {
                proof {
                    lemma_value_shape(*self, key@);
                    assert(key@[0] == 0x14);
                    assert(v@.len() == 8);
                }
                let r = u64_from_be(v, 0);
                proof {
                    assert(v@.subrange(0, 8) =~= v@);
                }
                r
            }
        }
    }

    /// Both running totals, read together from one committed state.
    pub fn audit_totals(&self) -> (r: (u64, u64))
        requires
            self.inv(),
        ensures
            r.0 as int == total_of(self@, audit_issuance_total_key()),
            r.1 as int == total_of(self@, audit_redemption_total_key()),
    {
        let itk = MintAuditItemKey::IssuanceTotal.to_bytes();
        let rtk = MintAuditItemKey::RedemptionTotal.to_bytes();
        (self.read_total(&itk), self.read_total(&rtk))
    }

    /// Solvency check: the committee is solvent while the value issued
    /// covers the value redeemed.
    pub fn is_solvent(&self) -> (r: bool)
        requires
            self.inv(),
        ensures
            r == (total_of(self@, audit_issuance_total_key()) >= total_of(self@,
                audit_redemption_total_key())),
    {
        let (issued, redeemed) = self.audit_totals();
        issued >= redeemed
    }

    /// Redeems a note: marks the nonce spent and records the itemised
    /// redemption entry and the bumped running total, all in one atomic
    /// transition — after the call either all three effects are visible or,
    /// on rejection, none.
    #[verifier::rlimit(60)]
    pub fn process_redeem(&mut self, nonce: &Nonce, amount: u64) -> (r: Result<(), MintError>)
        requires
            old(self).inv(),
        ensures
            final(self).inv(),
            match r {
                Ok(()) => !spent_in(old(self)@, nonce.0@) && !redeem_overflow(old(self)@, amount)
                    && final(self)@ == redeem_effect(old(self)@, nonce.0@, amount),
                Err(MintError::DoubleSpend) => spent_in(old(self)@, nonce.0@) && final(self)@
                    == old(self)@,
                Err(MintError::AuditOverflow) => !spent_in(old(self)@, nonce.0@)
                    && redeem_overflow(old(self)@, amount) && final(self)@ == old(self)@,
                Err(MintError::DuplicateOutcome) => false,
            },
    {
        let kb = NonceKey(Nonce(copy_bytes(&nonce.0))).to_bytes();
        match self.store.get(&kb) {
            Some(_) => Err(MintError::DoubleSpend),
            None => {
                let rtk = MintAuditItemKey::RedemptionTotal.to_bytes();
                let total = self.read_total(&rtk);
                if amount > u64::MAX - total {
                    return Err(MintError::AuditOverflow);
                }
                let new_total = total + amount;
                proof {
                    assert(kb@ == nonce_key_enc(nonce.0@));
                    assert(rtk@ == audit_redemption_total_key());
                }
                let ghost pre = *self;
                let g1 = self.store.put(kb, Vec::new());
                let ghost p1 = *self;
                let ik = MintAuditItemKey::Redemption(NonceKey(Nonce(copy_bytes(
                    &nonce.0)))).to_bytes();
                proof {
                    assert(ik@ == audit_redemption_key_enc(nonce.0@));
                    // The itemised entry cannot pre-exist: it would imply the
                    // marker does, and the marker was absent.
                    if pre@.dom().contains(ik@) {
                        assert(pre@.dom().contains(nonce_key_enc(nonce.0@)));
                    }
                    assert(ik@[0] == 0x14 && nonce_key_enc(nonce.0@)[0] == 0x10);
                    assert(ik@ != nonce_key_enc(nonce.0@));
                    assert(!p1@.dom().contains(ik@));
                }
                let g2 = self.store.put(ik, u64_to_be(amount));
                let ghost p2 = *self;
                let g3 = self.store.put(rtk, u64_to_be(new_total));
                proof {
                    lemma_inv_redeem(pre, p1, p2, *self, nonce.0@, amount, new_total, g1@,
                        g2@, g3@);
                }
                Ok(())
            }
        }
    }
}

/// The three writes of a redemption, taken together, keep the invariant and
/// produce exactly the redeem effect.
#[verifier::rlimit(100)]
proof fn lemma_inv_redeem(pre: MintDb, p1: MintDb, p2: MintDb, post: MintDb, n: Seq<u8>, amount: u64, new_total: u64, i1: int, i2: int, i3: int)
    requires
        pre.inv(),
        !spent_in(pre@, n),
        total_of(pre@, audit_redemption_total_key()) + amount <= u64::MAX,
        new_total as int == total_of(pre@, audit_redemption_total_key()) + amount,
        p1.store.wf(),
        p1@ == pre@.insert(nonce_key_enc(n), Seq::<u8>::empty()),
        0 <= i1 <= pre.raw().len(),
        p1.raw() == pre.raw().insert(i1, (nonce_key_enc(n), Seq::<u8>::empty())),
        p2.store.wf(),
        !p1@.dom().contains(audit_redemption_key_enc(n)),
        p2@ == p1@.insert(audit_redemption_key_enc(n), u64_be(amount)),
        0 <= i2 <= p1.raw().len(),
        p2.raw() == p1.raw().insert(i2, (audit_redemption_key_enc(n), u64_be(amount))),
        post.store.wf(),
        post@ == p2@.insert(audit_redemption_total_key(), u64_be(new_total)),
        (p2@.dom().contains(audit_redemption_total_key()) ==> 0 <= i3 < p2.raw().len()
            && p2.raw()[i3].0 == audit_redemption_total_key() && post.raw()
            == p2.raw().update(i3, (audit_redemption_total_key(), u64_be(new_total)))),
        (!p2@.dom().contains(audit_redemption_total_key()) ==> 0 <= i3 <= p2.raw().len()
            && post.raw() == p2.raw().insert(i3, (audit_redemption_total_key(),
        u64_be(new_total)))),
    ensures
        post.inv(),
        post@ == redeem_effect(pre@, n, amount),
{
    let nk = nonce_key_enc(n);
    let rk = audit_redemption_key_enc(n);
    let rt = audit_redemption_total_key();
    let it = audit_issuance_total_key();
    assert(nk[0] == 0x10 && rk[0] == 0x14 && rk[1] == 0x02);
    assert(rt[0] == 0x14 && rt[1] == 0x03 && it[0] == 0x14 && it[1] == 0x01);
    assert(nk != rk && nk != rt && nk != it && rk != rt && rk != it && rt != it);
    lemma_u64_be_round_trip(amount);
    lemma_u64_be_round_trip(new_total);
    // Step 1: the marker, outside the audit namespace.
    lemma_issuance_sum_insert(pre.raw(), i1, (nk, Seq::<u8>::empty()));
    lemma_redemption_sum_insert(pre.raw(), i1, (nk, Seq::<u8>::empty()));
    lemma_keys_wf_insert(pre.raw(), i1, (nk, Seq::<u8>::empty()));
    lemma_links_insert_other(pre@, nk, Seq::<u8>::empty());
    assert(total_of(p1@, it) == total_of(pre@, it));
    assert(total_of(p1@, rt) == total_of(pre@, rt));
    // Step 2: the itemised redemption entry.
    lemma_issuance_sum_insert(p1.raw(), i2, (rk, u64_be(amount)));
    lemma_redemption_sum_insert(p1.raw(), i2, (rk, u64_be(amount)));
    lemma_keys_wf_insert(p1.raw(), i2, (rk, u64_be(amount)));
    lemma_links_insert_redemption_item(p1@, n, u64_be(amount));
    assert(total_of(p2@, it) == total_of(p1@, it));
    assert(total_of(p2@, rt) == total_of(p1@, rt));
    assert(redemption_sum(p2.raw()) == redemption_sum(pre.raw()) + amount);
    // Step 3: the bumped running total.
    if p2@.dom().contains(rt) {
        lemma_issuance_sum_update(p2.raw(), i3, (rt, u64_be(new_total)));
        lemma_redemption_sum_update(p2.raw(), i3, (rt, u64_be(new_total)));
        lemma_keys_wf_update(p2.raw(), i3, (rt, u64_be(new_total)));
        lemma_sorted_distinct(p2.store.raw());
        lemma_kv_map_value(p2.raw(), i3);
        assert(!is_redemption_item_key(rt) && !is_issuance_item_key(rt));
        assert(!is_redemption_item_key(p2.raw()[i3].0) && !is_issuance_item_key(p2.raw()[i3].0));
    } else {
        lemma_issuance_sum_insert(p2.raw(), i3, (rt, u64_be(new_total)));
        lemma_redemption_sum_insert(p2.raw(), i3, (rt, u64_be(new_total)));
        lemma_keys_wf_insert(p2.raw(), i3, (rt, u64_be(new_total)));
    }
    lemma_links_insert_other(p2@, rt, u64_be(new_total));
    assert(total_of(post@, it) == total_of(p2@, it));
    assert(total_of(post@, rt) == new_total);
    assert(redemption_sum(post.raw()) == redemption_sum(pre.raw()) + amount);
    assert(issuance_sum(post.raw()) == issuance_sum(pre.raw()));
    assert(post@ == redeem_effect(pre@, n, amount));
}

fn encode_outcome(o: &OutputOutcome) -> (r: Vec<u8>)
    ensures
        r@ == outcome_enc(*o),
{
    let mut r: Vec<u8> = Vec::new();
    match o {
        OutputOutcome::Finalized { sig } => {
            r.push(0x01);
            let mut s = copy_bytes(sig);
            r.append(&mut s);
            proof {
                assert(r@ =~= seq![0x01u8] + sig@);
            }
        }
        OutputOutcome::Failed { reason } => {
            r.push(0x00);
            let mut s = copy_bytes(reason);
            r.append(&mut s);
            proof {
                assert(r@ =~= seq![0x00u8] + reason@);
            }
        }
    }
    r
}

impl MintDb {
    /// Stored entries with a share key for this output, counted one per peer.
    pub open spec fn share_count(self, t: Seq<u8>, ix: u64) -> int {
        prefix_count(self.raw(), received_prefix_enc(t, ix))
    }

    /// Writes the terminal outcome of an output, exactly once; a second
    /// write is refused as an invariant violation. Finalized outcomes also
    /// record the itemised issuance entry and bump the running total, in the
    /// same atomic transition.
    #[verifier::rlimit(60)]
    pub fn finalize_output(&mut self, out_point: &OutPoint, outcome: &OutputOutcome, amount: u64) -> (r: Result<(), MintError>)
        requires
            old(self).inv(),
        ensures
            final(self).inv(),
            match r {
                Ok(()) => !outcome_in(old(self)@, out_point.txid@, out_point.out_idx)
                    && !finalize_overflow(old(self)@, *outcome, amount) && final(self)@
                    == finalize_effect(old(self)@, out_point.txid@, out_point.out_idx, *outcome,
                    amount),
                Err(MintError::DuplicateOutcome) => outcome_in(old(self)@, out_point.txid@,
                    out_point.out_idx) && final(self)@ == old(self)@,
                Err(MintError::AuditOverflow) => !outcome_in(old(self)@, out_point.txid@,
                    out_point.out_idx) && finalize_overflow(old(self)@, *outcome, amount)
                    && final(self)@ == old(self)@,
                Err(MintError::DoubleSpend) => false,
            },
    {
        let ghost t = out_point.txid@;
        let ghost ix = out_point.out_idx;
        let okb = OutputOutcomeKey(*out_point).to_bytes();
        match self.store.get(&okb) {
            Some(_) => Err(MintError::DuplicateOutcome),
            None => {
                match outcome {
                    OutputOutcome::Failed { .. } => {
                        let enc = encode_outcome(outcome);
                        let ghost pre = *self;
                        let gi = self.store.put(okb, enc);
                        proof {
                            assert(outcome_enc(*outcome)[0] == 0x00);
                            lemma_inv_put_plain(pre, *self, outcome_key_enc(t, ix),
                                outcome_enc(*outcome), gi@);
                        }
                        Ok(())
                    }
                    OutputOutcome::Finalized { .. } => {
                        let itk = MintAuditItemKey::IssuanceTotal.to_bytes();
                        let total = self.read_total(&itk);
                        if amount > u64::MAX - total {
                            return Err(MintError::AuditOverflow);
                        }
                        let new_total = total + amount;
                        let enc = encode_outcome(outcome);
                        let ghost pre = *self;
                        let g1 = self.store.put(okb, enc);
                        let ghost p1 = *self;
                        let ik = MintAuditItemKey::Issuance(*out_point).to_bytes();
                        proof {
                            assert(ik@ == audit_issuance_key_enc(t, ix));
                            // The itemised entry cannot pre-exist: it would
                            // imply the outcome does, and none was stored.
                            if pre@.dom().contains(ik@) {
                                assert(pre@.dom().contains(outcome_key_enc(t, ix)));
                            }
                            assert(ik@[0] == 0x14 && outcome_key_enc(t, ix)[0] == 0x13);
                            assert(ik@ != outcome_key_enc(t, ix));
                            assert(!p1@.dom().contains(ik@));
                        }
                        let g2 = self.store.put(ik, u64_to_be(amount));
                        let ghost p2 = *self;
                        let g3 = self.store.put(itk, u64_to_be(new_total));
                        proof {
                            lemma_inv_finalize(pre, p1, p2, *self, t, ix, *outcome, amount,
                                new_total, g1@, g2@, g3@);
                        }
                        Ok(())
                    }
                }
            }
        }
    }

    /// The stored terminal outcome of an output, if one exists.
    pub fn output_outcome(&self, out_point: &OutPoint) -> (r: Option<OutputOutcome>)
        requires
            self.inv(),
        ensures
            match r {
                Some(o) => outcome_in(self@, out_point.txid@, out_point.out_idx) && outcome_enc(o)
                    == self@[outcome_key_enc(out_point.txid@, out_point.out_idx)],
                None => !outcome_in(self@, out_point.txid@, out_point.out_idx),
            },
    {
        let okb = OutputOutcomeKey(*out_point).to_bytes();
        match self.store.get(&okb) {
            None => None,
            Some(v) => {
                proof {
                    lemma_value_shape(*self, okb@);
                    assert(okb@[0] == 0x13);
                }
                let tail = copy_tail(v, 1);
                if v[0] == 0x01 {
                    let o = OutputOutcome::Finalized { sig: tail };
                    proof {
                        assert(outcome_enc(o) =~= v@);
                    }
                    Some(o)
                } else {
                    let o = OutputOutcome::Failed { reason: tail };
                    proof {
                        assert(v@[0] == 0x00);
                        assert(outcome_enc(o) =~= v@);
                    }
                    Some(o)
                }
            }
        }
    }

    /// How many distinct peers have a stored share for this output.
    pub fn count_shares(&self, out_point: &OutPoint) -> (r: usize)
        ensures
            r as int == self.share_count(out_point.txid@, out_point.out_idx),
    {
        let pb = ReceivedPartialSignatureKeyOutputPrefix { request_id: *out_point }.to_bytes();
        self.store.count_prefix(&pb)
    }

    /// Threshold test: evaluated purely from the count of distinct peers
    /// with a stored share.
    pub fn threshold_reached(&self, out_point: &OutPoint, threshold: usize) -> (r: bool)
        ensures
            r == (self.share_count(out_point.txid@, out_point.out_idx) >= threshold as int),
    {
        self.count_shares(out_point) >= threshold
    }

    /// Upserts one peer's share for an output. A later share from the same
    /// peer replaces the earlier one and never adds a second vote; an output
    /// that already has an outcome is left untouched.
    #[verifier::rlimit(60)]
    pub fn submit_share(&mut self, out_point: &OutPoint, peer: PeerId, share: &Vec<u8>) -> (r: SubmitOutcome)
        requires
            old(self).inv(),
        ensures
            final(self).inv(),
            final(self)@ == submit_effect(old(self)@, out_point.txid@, out_point.out_idx, peer.0,
                share@),
            outcome_in(final(self)@, out_point.txid@, out_point.out_idx) == outcome_in(
                old(self)@, out_point.txid@, out_point.out_idx),
            match r {
                SubmitOutcome::AlreadyDecided => outcome_in(old(self)@, out_point.txid@,
                    out_point.out_idx) && final(self)@ == old(self)@,
                SubmitOutcome::Collecting { distinct_peers } => !outcome_in(old(self)@,
                    out_point.txid@, out_point.out_idx) && has_share_in(final(self)@,
                    out_point.txid@, out_point.out_idx, peer.0) && distinct_peers as int == final(
                    self).share_count(out_point.txid@, out_point.out_idx) && final(
                    self).share_count(out_point.txid@, out_point.out_idx) == old(
                    self).share_count(out_point.txid@, out_point.out_idx) + (if has_share_in(
                    old(self)@, out_point.txid@, out_point.out_idx, peer.0) {
                    0int
                } else {
                    1int
                }),
            },
    {
        let ghost t = out_point.txid@;
        let ghost ix = out_point.out_idx;
        let okb = OutputOutcomeKey(*out_point).to_bytes();
        match self.store.get(&okb) {
            Some(_) => SubmitOutcome::AlreadyDecided,
            None => {
                let kb = ReceivedPartialSignatureKey { request_id: *out_point, peer_id: peer }
                    .to_bytes();
                let ghost pre = *self;
                let gi = self.store.put(kb, copy_bytes(share));
                proof {
                    assert(kb@ == received_key_enc(t, ix, peer.0));
                    assert(kb@[0] == 0x12 && kb@.len() == 43);
                    lemma_inv_put_plain(pre, *self, received_key_enc(t, ix, peer.0), share@,
                        gi@);
                    let pb = received_prefix_enc(t, ix);
                    assert(is_prefix_of(pb, kb@)) by {
                        assert(kb@.subrange(0, 41) =~= pb);
                    }
                    if pre@.dom().contains(kb@) {
                        crate::store::lemma_prefix_count_update(pre.raw(), gi@, (kb@, share@),
                            pb);
                    } else {
                        crate::store::lemma_prefix_count_insert(pre.raw(), gi@, (kb@, share@),
                            pb);
                    }
                    assert(outcome_key_enc(t, ix)[0] == 0x13);
                    assert(outcome_key_enc(t, ix) != kb@);
                }
                let c = self.count_shares(out_point);
                SubmitOutcome::Collecting { distinct_peers: c }
            }
        }
    }

    /// Stores a user's encrypted backup unless an equal-or-newer snapshot is
    /// already held; a stale write is dropped silently and never overwrites.
    pub fn store_backup(&mut self, key: &EcashBackupKey, snapshot: &ECashUserBackupSnapshot) -> (stored: bool)
        requires
            old(self).inv(),
        ensures
            final(self).inv(),
            stored == backup_fresh(old(self)@, key.0@, snapshot.timestamp),
            final(self)@ == backup_effect(old(self)@, key.0@, snapshot.timestamp,
                snapshot.data@),
    {
        let kb = key.to_bytes();
        let fresh: bool = match self.store.get(&kb) {
            None => true,
            Some(v) => {
                proof {
                    lemma_value_shape(*self, kb@);
                    assert(kb@[0] == 0x15);
                }
                let ts0 = u64_from_be(v, 0);
                ts0 < snapshot.timestamp
            }
        };
        if fresh {
            let mut enc = u64_to_be(snapshot.timestamp);
            let mut data = copy_bytes(&snapshot.data);
            enc.append(&mut data);
            let ghost pre = *self;
            let gi = self.store.put(kb, enc);
            proof {
                assert(kb@ == backup_key_enc(key.0@));
                assert(kb@.len() == 33 && kb@[0] == 0x15);
                lemma_inv_put_plain(pre, *self, backup_key_enc(key.0@),
                    snapshot_enc(snapshot.timestamp, snapshot.data@), gi@);
            }
            true
        } else {
            false
        }
    }

    /// The latest stored backup for this identity, if any.
    pub fn latest_backup(&self, key: &EcashBackupKey) -> (r: Option<ECashUserBackupSnapshot>)
        requires
            self.inv(),
        ensures
            match r {
                Some(s) => backup_in(self@, key.0@) && snapshot_enc(s.timestamp, s.data@)
                    == self@[backup_key_enc(key.0@)],
                None => !backup_in(self@, key.0@),
            },
    {
        let kb = key.to_bytes();
        match self.store.get(&kb) {
            None => None,
            Some(v) => {
                proof {
                    lemma_value_shape(*self, kb@);
                    assert(kb@[0] == 0x15);
                }
                let ts = u64_from_be(v, 0);
                let data = copy_tail(v, 8);
                let s = ECashUserBackupSnapshot { timestamp: ts, data };
                proof {
                    crate::bytes::lemma_be_u64_inverse(v@.subrange(0, 8));
                    assert(snapshot_enc(s.timestamp, s.data@) =~= v@);
                }
                Some(s)
            }
        }
    }

    /// Saves this mint's own proposed partial signature for an output.
    pub fn save_proposed_share(&mut self, key: &ProposedPartialSignatureKey, share: &Vec<u8>)
        requires
            old(self).inv(),
        ensures
            final(self).inv(),
            final(self)@ == old(self)@.insert(proposed_key_enc(key.out_point.txid@,
                key.out_point.out_idx), share@),
    {
        let kb = key.to_bytes();
        let ghost pre = *self;
        let gi = self.store.put(kb, copy_bytes(share));
        proof {
            assert(kb@[0] == 0x11);
            lemma_inv_put_plain(pre, *self, proposed_key_enc(key.out_point.txid@,
                key.out_point.out_idx), share@, gi@);
        }
    }

    /// The proposed partial signature stored for an output, if any.
    pub fn proposed_share(&self, key: &ProposedPartialSignatureKey) -> (r: Option<Vec<u8>>)
        requires
            self.inv(),
        ensures
            match r {
                Some(v) => self@.dom().contains(proposed_key_enc(key.out_point.txid@,
                    key.out_point.out_idx)) && v@ == self@[proposed_key_enc(key.out_point.txid@,
                    key.out_point.out_idx)],
                None => !self@.dom().contains(proposed_key_enc(key.out_point.txid@,
                    key.out_point.out_idx)),
            },
    {
        let kb = key.to_bytes();
        match self.store.get(&kb) {
            None => None,
            Some(v) => Some(copy_bytes(v)),
        }
    }
}

impl MintDb {
    /// What happened to an output: decided, still collecting shares, or
    /// never requested here — three distinguishable answers.
    pub fn output_status(&self, out_point: &OutPoint) -> (r: OutputStatus)
        requires
            self.inv(),
        ensures
            match r {
                OutputStatus::Decided(o) => outcome_in(self@, out_point.txid@, out_point.out_idx)
                    && outcome_enc(o) == self@[outcome_key_enc(out_point.txid@,
                    out_point.out_idx)],
                OutputStatus::Pending { distinct_peers } => !outcome_in(self@, out_point.txid@,
                    out_point.out_idx) && distinct_peers as int == self.share_count(
                    out_point.txid@, out_point.out_idx) && distinct_peers > 0,
                OutputStatus::Unknown => !outcome_in(self@, out_point.txid@, out_point.out_idx)
                    && self.share_count(out_point.txid@, out_point.out_idx) == 0,
            },
    {
        match self.output_outcome(out_point) {
            Some(o) => OutputStatus::Decided(o),
            None => {
                let c = self.count_shares(out_point);
                if c > 0 {
                    OutputStatus::Pending { distinct_peers: c }
                } else {
                    OutputStatus::Unknown
                }
            }
        }
    }

    /// The collected shares for an output, one per contributing peer, for
    /// handing to the external combiner: every stored share appears exactly
    /// once, under the peer that contributed it.
    #[verifier::rlimit(100)]
    pub fn shares_for(&self, out_point: &OutPoint) -> (r: Vec<(PeerId, Vec<u8>)>)
        requires
            self.inv(),
        ensures
            forall|j: int|
                0 <= j < r@.len() ==> has_share_in(self@, out_point.txid@, out_point.out_idx, (
                #[trigger] r@[j]).0.0) && self@[received_key_enc(out_point.txid@,
                    out_point.out_idx, r@[j].0.0)] == r@[j].1@,
            forall|p: u16|
                #[trigger] has_share_in(self@, out_point.txid@, out_point.out_idx, p) ==> (
                exists|j: int| 0 <= j < r@.len() && (#[trigger] r@[j]).0.0 == p),
            forall|j1: int, j2: int|
                0 <= j1 < j2 < r@.len() ==> (#[trigger] r@[j1]).0.0 != (#[trigger] r@[j2]).0.0,
            r@.len() == self.share_count(out_point.txid@, out_point.out_idx),
    {
        let ghost t = out_point.txid@;
        let ghost ix = out_point.out_idx;
        let pb = ReceivedPartialSignatureKeyOutputPrefix { request_id: *out_point }.to_bytes();
        let rows = self.store.range(&pb);
        proof {
            assert(self.raw() == self.store.raw());
        }
        let mut r: Vec<(PeerId, Vec<u8>)> = Vec::new();
        let mut i: usize = 0;
        while i < rows.len()
            invariant
                self.inv(),
                pb@ == received_prefix_enc(out_point.txid@, out_point.out_idx),
                forall|j: int|
                    0 <= j < rows@.len() ==> is_prefix_of(pb@, (#[trigger] rows@[j]).0@)
                        && self@.dom().contains(rows@[j].0@) && self@[rows@[j].0@]
                        == rows@[j].1@,
                forall|k: Seq<u8>|
                    #[trigger] self@.dom().contains(k) && is_prefix_of(pb@, k) ==> (exists|
                    j: int| 0 <= j < rows@.len() && (#[trigger] rows@[j]).0@ == k),
                forall|a: int, b: int|
                    0 <= a < b < rows@.len() ==> crate::bytes::lex_lt((#[trigger] rows@[a]).0@, (
                    #[trigger] rows@[b]).0@),
                i <= rows@.len(),
                r@.len() == i,
                rows@.len() == crate::store::prefix_count(self.store.raw(), pb@),
                forall|j: int|
                    0 <= j < i ==> (#[trigger] r@[j]).1@ == rows@[j].1@ && rows@[j].0@
                        == received_key_enc(out_point.txid@, out_point.out_idx, r@[j].0.0),
            decreases rows@.len() - i,
        {
            proof {
                lemma_value_shape(*self, rows@[i as int].0@);
                assert(rows@[i as int].0@[0] == pb@[0]) by {
                    assert(rows@[i as int].0@.subrange(0, pb@.len() as int) == pb@);
                    assert(rows@[i as int].0@.subrange(0, pb@.len() as int)[0] == rows@[
                        i as int].0@[0]);
                }
                assert(rows@[i as int].0@[0] == 0x12);
                assert(rows@[i as int].0@.len() == 43);
            }
            let p = u16_from_be(&rows[i].0, 41);
            proof {
                assert(out_point.txid@.len() == 32);
                lemma_received_prefix_parse(rows@[i as int].0@, out_point.txid@,
                    out_point.out_idx);
            }
            let v = copy_bytes(&rows[i].1);
            r.push((PeerId(p), v));
            i = i + 1;
        }
        proof {
            assert forall|p: u16| #[trigger] has_share_in(self@, t, ix, p) implies (exists|
            j: int| 0 <= j < r@.len() && (#[trigger] r@[j]).0.0 == p) by {
                let k = received_key_enc(t, ix, p);
                assert(is_prefix_of(pb@, k)) by {
                    assert(k.subrange(0, 41) =~= pb@);
                }
                let j = choose|j: int| 0 <= j < rows@.len() && (#[trigger] rows@[j]).0@ == k;
                assert(rows@[j].0@ == received_key_enc(t, ix, r@[j].0.0));
                lemma_received_key_injective(t, ix, p, t, ix, r@[j].0.0);
                assert((r@[j]).0.0 == p);
            }
            assert forall|j1: int, j2: int| 0 <= j1 < j2 < r@.len() implies (#[trigger] r@[
            j1]).0.0 != (#[trigger] r@[j2]).0.0 by {
                crate::bytes::lemma_lex_lt_total(rows@[j1].0@, rows@[j2].0@);
            }
        }
        r
    }
}

proof fn lemma_keys_wf_remove(s: Seq<(Seq<u8>, Seq<u8>)>, i: int)
    requires
        keys_wf(s),
        0 <= i < s.len(),
    ensures
        keys_wf(s.remove(i)),
{
    let s2 = s.remove(i);
    assert forall|j: int| 0 <= j < s2.len() implies entry_wf(#[trigger] s2[j]) by {
        if j < i {
            assert(s2[j] == s[j]);
        } else {
            assert(s2[j] == s[j + 1]);
        }
    }
}

proof fn lemma_issuance_sum_remove(s: Seq<(Seq<u8>, Seq<u8>)>, i: int)
    requires
        0 <= i < s.len(),
    ensures
        issuance_sum(s.remove(i)) == issuance_sum(s) - (if is_issuance_item_key(s[i].0) {
            be_u64(s[i].1) as int
        } else {
            0int
        }),
    decreases s.len(),
{
    let s2 = s.remove(i);
    if i == s.len() - 1 {
        assert(s2 =~= s.drop_last());
    } else {
        assert(s2.last() == s.last());
        assert(s2.drop_last() =~= s.drop_last().remove(i));
        assert(s.drop_last()[i] == s[i]);
        lemma_issuance_sum_remove(s.drop_last(), i);
    }
}

proof fn lemma_redemption_sum_remove(s: Seq<(Seq<u8>, Seq<u8>)>, i: int)
    requires
        0 <= i < s.len(),
    ensures
        redemption_sum(s.remove(i)) == redemption_sum(s) - (if is_redemption_item_key(s[i].0) {
            be_u64(s[i].1) as int
        } else {
            0int
        }),
    decreases s.len(),
{
    let s2 = s.remove(i);
    if i == s.len() - 1 {
        assert(s2 =~= s.drop_last());
    } else {
        assert(s2.last() == s.last());
        assert(s2.drop_last() =~= s.drop_last().remove(i));
        assert(s.drop_last()[i] == s[i]);
        lemma_redemption_sum_remove(s.drop_last(), i);
    }
}

/// Deleting a share entry keeps the engine invariant: shares stand outside
/// the audit namespace and nothing in the ledger refers to them.
proof fn lemma_inv_delete_share(pre: MintDb, post: MintDb, k: Seq<u8>, gi: int)
    requires
        pre.inv(),
        k.len() >= 1,
        k[0] == 0x12,
        pre@.dom().contains(k),
        post.store.wf(),
        post@ == pre@.remove(k),
        0 <= gi < pre.raw().len(),
        pre.raw()[gi].0 == k,
        post.raw() == pre.raw().remove(gi),
    ensures
        post.inv(),
{
    let itk = audit_issuance_total_key();
    let rtk = audit_redemption_total_key();
    assert(itk[0] == 0x14 && rtk[0] == 0x14);
    assert(k != itk && k != rtk);
    assert(!is_issuance_item_key(k) && !is_redemption_item_key(k));
    lemma_issuance_sum_remove(pre.raw(), gi);
    lemma_redemption_sum_remove(pre.raw(), gi);
    lemma_keys_wf_remove(pre.raw(), gi);
    assert(total_of(post@, itk) == total_of(pre@, itk));
    assert(total_of(post@, rtk) == total_of(pre@, rtk));
    assert forall|n: Seq<u8>| #[trigger] post@.dom().contains(audit_redemption_key_enc(n))
        implies post@.dom().contains(nonce_key_enc(n)) by {
        assert(pre@.dom().contains(audit_redemption_key_enc(n)));
        assert(nonce_key_enc(n)[0] == 0x10);
        assert(nonce_key_enc(n) != k);
    }
    assert forall|t: Seq<u8>, ix: u64| #[trigger] post@.dom().contains(audit_issuance_key_enc(
        t, ix)) implies post@.dom().contains(outcome_key_enc(t, ix)) by {
        assert(pre@.dom().contains(audit_issuance_key_enc(t, ix)));
        assert(outcome_key_enc(t, ix)[0] == 0x13);
        assert(outcome_key_enc(t, ix) != k);
    }
}

impl MintDb {
    /// Deletes every stored share for an output, once its outcome is on
    /// record and the shares are no longer needed; nothing else is touched.
    #[verifier::rlimit(60)]
    pub fn prune_shares(&mut self, out_point: &OutPoint)
        requires
            old(self).inv(),
        ensures
            final(self).inv(),
            forall|k: Seq<u8>|
                is_prefix_of(received_prefix_enc(out_point.txid@, out_point.out_idx), k)
                    ==> !final(self)@.dom().contains(k),
            forall|k: Seq<u8>|
                #[trigger] old(self)@.dom().contains(k) && !is_prefix_of(received_prefix_enc(
                    out_point.txid@, out_point.out_idx), k) ==> final(self)@.dom().contains(k)
                    && final(self)@[k] == old(self)@[k],
            forall|k: Seq<u8>|
                #[trigger] final(self)@.dom().contains(k) ==> old(self)@.dom().contains(k),
    {
        let pb = ReceivedPartialSignatureKeyOutputPrefix { request_id: *out_point }.to_bytes();
        loop
            invariant
                self.inv(),
                pb@ == received_prefix_enc(out_point.txid@, out_point.out_idx),
                forall|k: Seq<u8>|
                    #[trigger] old(self)@.dom().contains(k) && !is_prefix_of(pb@, k) ==> self@
                        .dom().contains(k) && self@[k] == old(self)@[k],
                forall|k: Seq<u8>| #[trigger] self@.dom().contains(k) ==> old(self)@.dom()
                    .contains(k),
            ensures
                forall|k: Seq<u8>| is_prefix_of(pb@, k) ==> !self@.dom().contains(k),
            decreases crate::store::prefix_count(self.raw(), pb@),
        {
            let rows = self.store.range(&pb);
            if rows.is_empty() {
                proof {
                    assert forall|k: Seq<u8>| is_prefix_of(pb@, k) implies !self@.dom()
                        .contains(k) by {
                        if self@.dom().contains(k) {
                            assert(exists|j: int|
                                0 <= j < rows@.len() && (#[trigger] rows@[j]).0@ == k);
                        }
                    }
                }
                break;
            }
            let ghost pre = *self;
            let gi = self.store.delete(&rows[0].0);
            proof {
                let k = rows@[0].0@;
                assert(k[0] == pb@[0]) by {
                    assert(k.subrange(0, pb@.len() as int) == pb@);
                    assert(k.subrange(0, pb@.len() as int)[0] == k[0]);
                }
                lemma_inv_delete_share(pre, *self, k, gi@);
                crate::store::lemma_prefix_count_remove(pre.raw(), gi@, pb@);
                crate::store::lemma_prefix_count_nonneg(self.raw(), pb@);
            }
        }
    }
}

/// One operation in a consensus-committed batch.
pub enum MintOp {
    Redeem { nonce: Nonce, amount: u64 },
    SubmitShare { out_point: OutPoint, peer: PeerId, share: Vec<u8> },
    RecordOutcome { out_point: OutPoint, outcome: OutputOutcome, amount: u64 },
    Backup { key: EcashBackupKey, snapshot: ECashUserBackupSnapshot },
}

/// A fatal operation halts the whole batch: an audit total would overflow,
/// or an outcome would be overwritten.
pub open spec fn op_fatal(m: Map<Seq<u8>, Seq<u8>>, op: MintOp) -> bool {
    match op {
        MintOp::Redeem { nonce, amount } => !spent_in(m, nonce.0@) && redeem_overflow(m, amount),
        MintOp::SubmitShare { .. } => false,
        MintOp::RecordOutcome { out_point, outcome, amount } => outcome_in(m, out_point.txid@,
            out_point.out_idx) || finalize_overflow(m, outcome, amount),
        MintOp::Backup { .. } => false,
    }
}

/// Whether a non-fatal operation takes effect, rather than being rejected
/// or dropped where it stands.
pub open spec fn op_applies(m: Map<Seq<u8>, Seq<u8>>, op: MintOp) -> bool {
    match op {
        MintOp::Redeem { nonce, .. } => !spent_in(m, nonce.0@),
        MintOp::SubmitShare { out_point, .. } => !outcome_in(m, out_point.txid@,
            out_point.out_idx),
        MintOp::RecordOutcome { .. } => true,
        MintOp::Backup { key, snapshot } => backup_fresh(m, key.0@, snapshot.timestamp),
    }
}

/// The state after one non-fatal operation.
pub open spec fn op_effect(m: Map<Seq<u8>, Seq<u8>>, op: MintOp) -> Map<Seq<u8>, Seq<u8>> {
    match op {
        MintOp::Redeem { nonce, amount } => if spent_in(m, nonce.0@) {
            m
        } else {
            redeem_effect(m, nonce.0@, amount)
        },
        MintOp::SubmitShare { out_point, peer, share } => submit_effect(m, out_point.txid@,
            out_point.out_idx, peer.0, share@),
        MintOp::RecordOutcome { out_point, outcome, amount } => finalize_effect(m,
            out_point.txid@, out_point.out_idx, outcome, amount),
        MintOp::Backup { key, snapshot } => backup_effect(m, key.0@, snapshot.timestamp,
            snapshot.data@),
    }
}

/// The state after a whole batch, applied in order.
pub open spec fn batch_effect(m: Map<Seq<u8>, Seq<u8>>, ops: Seq<MintOp>) -> Map<Seq<u8>, Seq<u8>>
    decreases ops.len(),
{
    if ops.len() == 0 {
        m
    } else {
        op_effect(batch_effect(m, ops.drop_last()), ops.last())
    }
}

/// Whether some operation of the batch is fatal at its point.
pub open spec fn batch_fatal(m: Map<Seq<u8>, Seq<u8>>, ops: Seq<MintOp>) -> bool
    decreases ops.len(),
{
    if ops.len() == 0 {
        false
    } else {
        batch_fatal(m, ops.drop_last()) || op_fatal(batch_effect(m, ops.drop_last()), ops.last())
    }
}

proof fn lemma_batch_fatal_extend(m: Map<Seq<u8>, Seq<u8>>, ops: Seq<MintOp>, j: int)
    requires
        0 <= j <= ops.len(),
        batch_fatal(m, ops.take(j)),
    ensures
        batch_fatal(m, ops),
    decreases ops.len() - j,
{
    if j < ops.len() {
        assert(ops.take(j + 1).drop_last() =~= ops.take(j));
        lemma_batch_fatal_extend(m, ops, j + 1);
    } else {
        assert(ops.take(j) =~= ops);
    }
}

impl MintDb {
    /// Applies one operation at its point in a batch; a fatal error leaves
    /// the state untouched so the caller can abandon the whole batch.
    fn apply_op(&mut self, op: &MintOp) -> (r: Result<bool, MintError>)
        requires
            old(self).inv(),
        ensures
            final(self).inv(),
            match r {
                Ok(applied) => !op_fatal(old(self)@, *op) && final(self)@ == op_effect(
                    old(self)@, *op) && applied == op_applies(old(self)@, *op),
                Err(e) => op_fatal(old(self)@, *op) && final(self)@ == old(self)@ && (e
                    == MintError::DuplicateOutcome || e == MintError::AuditOverflow),
            },
    {
        match op {
            MintOp::Redeem { nonce, amount } => {
                match self.process_redeem(nonce, *amount) {
                    Ok(()) => Ok(true),
                    Err(MintError::DoubleSpend) => Ok(false),
                    Err(e) => Err(e),
                }
            }
            MintOp::SubmitShare { out_point, peer, share } => {
                match self.submit_share(out_point, *peer, share) {
                    SubmitOutcome::AlreadyDecided => Ok(false),
                    SubmitOutcome::Collecting { .. } => Ok(true),
                }
            }
            MintOp::RecordOutcome { out_point, outcome, amount } => {
                match self.finalize_output(out_point, outcome, *amount) {
                    Ok(()) => Ok(true),
                    Err(e) => Err(e),
                }
            }
            MintOp::Backup { key, snapshot } => Ok(self.store_backup(key, snapshot)),
        }
    }

    /// Applies one consensus-committed batch as a single atomic transaction:
    /// on success every operation's effect is visible, in batch order, with
    /// rejected operations (double spends, stale backups, shares for decided
    /// outputs) skipped in place; on a fatal operation nothing at all is.
    /// The returned replies say, per operation, whether it took effect.
    #[verifier::rlimit(100)]
    #[verifier::spinoff_prover]
    pub fn apply_batch(&mut self, ops: &Vec<MintOp>) -> (r: Result<Vec<bool>, MintError>)
        requires
            old(self).inv(),
        ensures
            final(self).inv(),
            match r {
                Ok(replies) => !batch_fatal(old(self)@, ops@) && final(self)@ == batch_effect(
                    old(self)@, ops@) && replies@.len() == ops@.len() && (forall|i: int|
                    0 <= i < ops@.len() ==> replies@[i] == op_applies(batch_effect(old(self)@,
                        ops@.take(i)), #[trigger] ops@[i])),
                Err(e) => batch_fatal(old(self)@, ops@) && final(self)@ == old(self)@ && (e
                    == MintError::DuplicateOutcome || e == MintError::AuditOverflow),
            },
    {
        let mut work = MintDb { store: self.store.snapshot() };
        let mut replies: Vec<bool> = Vec::new();
        let mut i: usize = 0;
        while i < ops.len()
            invariant
                old(self).inv(),
                work.inv(),
                i <= ops@.len(),
                replies@.len() == i,
                work@ == batch_effect(old(self)@, ops@.take(i as int)),
                !batch_fatal(old(self)@, ops@.take(i as int)),
                forall|j: int|
                    0 <= j < i ==> replies@[j] == op_applies(batch_effect(old(self)@,
                        ops@.take(j)), #[trigger] ops@[j]),
            decreases ops@.len() - i,
        {
            let applied: bool = match work.apply_op(&ops[i]) {
                Ok(applied) => applied,
                Err(e) => {
                    proof {
                        assert(ops@.take(i + 1).drop_last() =~= ops@.take(i as int));
                        assert(batch_fatal(old(self)@, ops@.take(i + 1)));
                        lemma_batch_fatal_extend(old(self)@, ops@, i + 1);
                    }
                    return Err(e);
                }
            };
            replies.push(applied);
            i = i + 1;
            proof {
                assert(ops@.take(i as int).drop_last() =~= ops@.take(i - 1));
                assert(ops@.take(i as int).last() == ops@[i - 1]);
            }
        }
        proof {
            assert(ops@.take(ops@.len() as int) =~= ops@);
        }
        *self = work;
        Ok(replies)
    }
}

// ---------------------------------------------------------------------------
// Laws: properties that hold of the engine's transitions and states.
// ---------------------------------------------------------------------------

/// A spent nonce stays spent: after the first successful `record_spend` (or
/// redemption), any later spend of the same nonce finds it spent and is
/// therefore rejected.
pub proof fn lemma_spend_is_permanent(m: Map<Seq<u8>, Seq<u8>>, n: Seq<u8>, amount: u64)
    ensures
        spent_in(spend_effect(m, n), n),
        spent_in(redeem_effect(m, n, amount), n),
{
    assert(nonce_key_enc(n)[0] == 0x10);
    assert(audit_redemption_key_enc(n)[0] == 0x14);
    assert(audit_redemption_total_key()[0] == 0x14);
    assert(nonce_key_enc(n) != audit_redemption_key_enc(n));
    assert(nonce_key_enc(n) != audit_redemption_total_key());
}

/// Submitting a share never creates, removes or changes any stored outcome:
/// before the threshold is acted on, every output stays pending.
pub proof fn lemma_submit_preserves_outcomes(m: Map<Seq<u8>, Seq<u8>>, t: Seq<u8>, ix: u64, p: u16, share: Seq<u8>)
    ensures
        forall|t2: Seq<u8>, ix2: u64|
            outcome_in(#[trigger] submit_effect(m, t, ix, p, share), t2, ix2) == outcome_in(m,
                t2, ix2),
        forall|t2: Seq<u8>, ix2: u64|
            outcome_in(m, t2, ix2) ==> submit_effect(m, t, ix, p, share)[outcome_key_enc(
                t2, ix2)] == m[outcome_key_enc(t2, ix2)],
{
    if !outcome_in(m, t, ix) {
        assert forall|t2: Seq<u8>, ix2: u64| outcome_in(#[trigger] submit_effect(m, t, ix, p,
            share), t2, ix2) == outcome_in(m, t2, ix2) by {
            assert(outcome_key_enc(t2, ix2)[0] == 0x13 && received_key_enc(t, ix, p)[0] == 0x12);
            assert(outcome_key_enc(t2, ix2) != received_key_enc(t, ix, p));
        }
        assert forall|t2: Seq<u8>, ix2: u64| outcome_in(m, t2, ix2) implies submit_effect(m, t,
            ix, p, share)[outcome_key_enc(t2, ix2)] == m[outcome_key_enc(t2, ix2)] by {
            assert(outcome_key_enc(t2, ix2)[0] == 0x13 && received_key_enc(t, ix, p)[0] == 0x12);
            assert(outcome_key_enc(t2, ix2) != received_key_enc(t, ix, p));
        }
    }
}

/// Two shares from the same peer for the same output count once: the later
/// submission replaces the earlier and the state is as if only it arrived.
pub proof fn lemma_same_peer_single_vote(m: Map<Seq<u8>, Seq<u8>>, t: Seq<u8>, ix: u64, p: u16, s1: Seq<u8>, s2: Seq<u8>)
    ensures
        submit_effect(submit_effect(m, t, ix, p, s1), t, ix, p, s2) == submit_effect(m, t, ix, p,
            s2),
{
    lemma_submit_preserves_outcomes(m, t, ix, p, s1);
    if !outcome_in(m, t, ix) {
        assert(m.insert(received_key_enc(t, ix, p), s1).insert(received_key_enc(t, ix, p), s2)
            =~= m.insert(received_key_enc(t, ix, p), s2));
    }
}

/// The audit ledger reconciles: in every reachable state, the running
/// issuance total equals the sum of the itemised issuance amounts, and the
/// running redemption total equals the sum of the itemised redemption
/// amounts.
pub proof fn lemma_audit_totals_reconcile(d: MintDb)
    requires
        d.inv(),
    ensures
        total_of(d@, audit_issuance_total_key()) == issuance_sum(d.raw()),
        total_of(d@, audit_redemption_total_key()) == redemption_sum(d.raw()),
{
}

/// Crossing the threshold and recording the combined result stores that
/// outcome under the output's key, where queries then find it: the audit
/// writes that accompany a finalized outcome never disturb it.
pub proof fn lemma_finalize_stores_outcome(m: Map<Seq<u8>, Seq<u8>>, t: Seq<u8>, ix: u64, o: OutputOutcome, amount: u64)
    ensures
        outcome_in(finalize_effect(m, t, ix, o, amount), t, ix),
        finalize_effect(m, t, ix, o, amount)[outcome_key_enc(t, ix)] == outcome_enc(o),
{
    let ok = outcome_key_enc(t, ix);
    if is_finalized(o) {
        assert(ok[0] == 0x13 && audit_issuance_key_enc(t, ix)[0] == 0x14
            && audit_issuance_total_key()[0] == 0x14);
        assert(ok != audit_issuance_key_enc(t, ix) && ok != audit_issuance_total_key());
    }
}

/// A backup is overwritten only by a strictly newer one: writing an older
/// or equal timestamp after a newer one leaves the newer snapshot intact.
pub proof fn lemma_backup_keeps_newest(m: Map<Seq<u8>, Seq<u8>>, id: Seq<u8>, t1: u64, d1: Seq<u8>, t0: u64, d0: Seq<u8>)
    requires
        t0 <= t1,
    ensures
        backup_effect(backup_effect(m, id, t1, d1), id, t0, d0) == backup_effect(m, id, t1, d1),
{
    let m1 = backup_effect(m, id, t1, d1);
    if backup_fresh(m, id, t1) {
        assert(m1[backup_key_enc(id)] == snapshot_enc(t1, d1));
        assert(snapshot_enc(t1, d1).subrange(0, 8) =~= u64_be(t1));
        lemma_u64_be_round_trip(t1);
        assert(stored_backup_ts(m1, id) == t1);
        assert(!backup_fresh(m1, id, t0));
    } else {
        assert(!backup_fresh(m1, id, t0));
    }
}

/// Redemption is atomic: one transition adds the spent-nonce marker, the
/// itemised audit entry and the bumped total together — never one without
/// the others. (On rejection the engine leaves the state untouched.)
pub proof fn lemma_redeem_is_atomic(m: Map<Seq<u8>, Seq<u8>>, n: Seq<u8>, amount: u64)
    ensures
        spent_in(redeem_effect(m, n, amount), n),
        redeem_effect(m, n, amount).dom().contains(audit_redemption_key_enc(n)),
        redeem_overflow(m, amount) || total_of(redeem_effect(m, n, amount),
            audit_redemption_total_key()) == total_of(m, audit_redemption_total_key()) + amount,
{
    lemma_spend_is_permanent(m, n, amount);
    let rt = audit_redemption_total_key();
    if !redeem_overflow(m, amount) {
        let new_total = (total_of(m, rt) + amount) as u64;
        lemma_u64_be_round_trip(new_total);
    }
}

/// The writes of a finalized outcome, taken together, keep the invariant
/// and produce exactly the finalize effect.
#[verifier::rlimit(100)]
proof fn lemma_inv_finalize(pre: MintDb, p1: MintDb, p2: MintDb, post: MintDb, t: Seq<u8>, ix: u64, o: OutputOutcome, amount: u64, new_total: u64, i1: int, i2: int, i3: int)
    requires
        pre.inv(),
        !outcome_in(pre@, t, ix),
        is_finalized(o),
        total_of(pre@, audit_issuance_total_key()) + amount <= u64::MAX,
        new_total as int == total_of(pre@, audit_issuance_total_key()) + amount,
        p1.store.wf(),
        p1@ == pre@.insert(outcome_key_enc(t, ix), outcome_enc(o)),
        0 <= i1 <= pre.raw().len(),
        p1.raw() == pre.raw().insert(i1, (outcome_key_enc(t, ix), outcome_enc(o))),
        p2.store.wf(),
        !p1@.dom().contains(audit_issuance_key_enc(t, ix)),
        p2@ == p1@.insert(audit_issuance_key_enc(t, ix), u64_be(amount)),
        0 <= i2 <= p1.raw().len(),
        p2.raw() == p1.raw().insert(i2, (audit_issuance_key_enc(t, ix), u64_be(amount))),
        post.store.wf(),
        post@ == p2@.insert(audit_issuance_total_key(), u64_be(new_total)),
        (p2@.dom().contains(audit_issuance_total_key()) ==> 0 <= i3 < p2.raw().len()
            && p2.raw()[i3].0 == audit_issuance_total_key() && post.raw() == p2.raw().update(
            i3, (audit_issuance_total_key(), u64_be(new_total)))),
        (!p2@.dom().contains(audit_issuance_total_key()) ==> 0 <= i3 <= p2.raw().len()
            && post.raw() == p2.raw().insert(i3, (audit_issuance_total_key(),
        u64_be(new_total)))),
    ensures
        post.inv(),
        post@ == finalize_effect(pre@, t, ix, o, amount),
{
    let ok = outcome_key_enc(t, ix);
    let ak = audit_issuance_key_enc(t, ix);
    let it = audit_issuance_total_key();
    let rt = audit_redemption_total_key();
    assert(ok[0] == 0x13 && ak[0] == 0x14 && ak[1] == 0x00);
    assert(it[0] == 0x14 && it[1] == 0x01 && rt[0] == 0x14 && rt[1] == 0x03);
    assert(ok != ak && ok != it && ok != rt && ak != it && ak != rt && it != rt);
    lemma_u64_be_round_trip(amount);
    lemma_u64_be_round_trip(new_total);
    let oe = outcome_enc(o);
    assert(oe.len() >= 1 && (oe[0] == 0x00 || oe[0] == 0x01));
    // Step 1: the outcome, outside the audit namespace.
    lemma_issuance_sum_insert(pre.raw(), i1, (ok, oe));
    lemma_redemption_sum_insert(pre.raw(), i1, (ok, oe));
    lemma_keys_wf_insert(pre.raw(), i1, (ok, oe));
    lemma_links_insert_other(pre@, ok, oe);
    assert(total_of(p1@, it) == total_of(pre@, it));
    assert(total_of(p1@, rt) == total_of(pre@, rt));
    // Step 2: the itemised issuance entry, now covered by the outcome.
    lemma_issuance_sum_insert(p1.raw(), i2, (ak, u64_be(amount)));
    lemma_redemption_sum_insert(p1.raw(), i2, (ak, u64_be(amount)));
    lemma_keys_wf_insert(p1.raw(), i2, (ak, u64_be(amount)));
    lemma_links_insert_issuance_item(p1@, t, ix, u64_be(amount));
    assert(total_of(p2@, it) == total_of(p1@, it));
    assert(total_of(p2@, rt) == total_of(p1@, rt));
    assert(issuance_sum(p2.raw()) == issuance_sum(pre.raw()) + amount);
    // Step 3: the bumped running total.
    if p2@.dom().contains(it) {
        lemma_issuance_sum_update(p2.raw(), i3, (it, u64_be(new_total)));
        lemma_redemption_sum_update(p2.raw(), i3, (it, u64_be(new_total)));
        lemma_keys_wf_update(p2.raw(), i3, (it, u64_be(new_total)));
        lemma_sorted_distinct(p2.store.raw());
        lemma_kv_map_value(p2.raw(), i3);
        assert(!is_redemption_item_key(it) && !is_issuance_item_key(it));
        assert(!is_redemption_item_key(p2.raw()[i3].0) && !is_issuance_item_key(p2.raw()[i3].0));
    } else {
        lemma_issuance_sum_insert(p2.raw(), i3, (it, u64_be(new_total)));
        lemma_redemption_sum_insert(p2.raw(), i3, (it, u64_be(new_total)));
        lemma_keys_wf_insert(p2.raw(), i3, (it, u64_be(new_total)));
    }
    lemma_links_insert_other(p2@, it, u64_be(new_total));
    assert(total_of(post@, rt) == total_of(p2@, rt));
    assert(total_of(post@, it) == new_total);
    assert(issuance_sum(post.raw()) == issuance_sum(pre.raw()) + amount);
    assert(redemption_sum(post.raw()) == redemption_sum(pre.raw()));
    assert(post@ == finalize_effect(pre@, t, ix, o, amount));
}

} // verus!
