//! The ordered key-value store: a byte-ordered mapping with point get, put
//! and delete, atomic multi-key batches, and prefix-scoped ordered iteration.
//!
//! Keys are kept strictly sorted in lexicographic byte order; the abstract
//! view of a store is the map from key bytes to value bytes.

use vstd::prelude::*;
use crate::bytes::{bytes_eq, copy_bytes, has_prefix, is_prefix_of, lemma_lex_lt_total,
    lemma_lex_lt_transitive, lex_cmp, lex_lt};


verus! {

/// Entry vectors abstracted to byte strings, in storage order.
pub open spec fn raw_of(s: Seq<(Vec<u8>, Vec<u8>)>) -> Seq<(Seq<u8>, Seq<u8>)> {
    s.map(|i: int, e: (Vec<u8>, Vec<u8>)| (e.0@, e.1@))
}

pub proof fn lemma_raw_index(s: Seq<(Vec<u8>, Vec<u8>)>)
    ensures
        raw_of(s).len() == s.len(),
        forall|i: int| 0 <= i < s.len() ==> (#[trigger] raw_of(s)[i]) == (s[i].0@, s[i].1@),
{
}

pub open spec fn entries_sorted(s: Seq<(Seq<u8>, Seq<u8>)>) -> bool {
    forall|i: int| 0 <= i && i + 1 < s.len() ==> lex_lt(#[trigger] s[i].0, s[i + 1].0)
}

pub open spec fn keys_distinct(s: Seq<(Seq<u8>, Seq<u8>)>) -> bool {
    forall|i: int, j: int| 0 <= i < j < s.len() ==> (#[trigger] s[i].0) != (#[trigger] s[j].0)
}

/// The map described by an entry sequence; later entries win, though the
/// store never holds a key twice.
pub open spec fn kv_map(s: Seq<(Seq<u8>, Seq<u8>)>) -> Map<Seq<u8>, Seq<u8>>
    decreases s.len(),
{
    if s.len() == 0 {
        Map::empty()
    } else {
        kv_map(s.drop_last()).insert(s.last().0, s.last().1)
    }
}

pub proof fn lemma_sorted_pairwise(s: Seq<(Seq<u8>, Seq<u8>)>, i: int, j: int)
    requires
        entries_sorted(s),
        0 <= i < j < s.len(),
    ensures
        lex_lt(s[i].0, s[j].0),
    decreases j - i,
{
    if i + 1 < j {
        lemma_sorted_pairwise(s, i, j - 1);
        lemma_lex_lt_transitive(s[i].0, s[j - 1].0, s[j].0);
    }
}

pub proof fn lemma_sorted_distinct(s: Seq<(Seq<u8>, Seq<u8>)>)
    requires
        entries_sorted(s),
    ensures
        keys_distinct(s),
{
    assert forall|i: int, j: int| 0 <= i < j < s.len() implies (#[trigger] s[i].0) != (
    #[trigger] s[j].0) by {
        lemma_sorted_pairwise(s, i, j);
        lemma_lex_lt_total(s[i].0, s[j].0);
    }
}

/// A key is in the map exactly when some entry holds it.
pub proof fn lemma_kv_map_dom(s: Seq<(Seq<u8>, Seq<u8>)>)
    ensures
        forall|k: Seq<u8>|
            #[trigger] kv_map(s).dom().contains(k) <==> (exists|i: int|
                0 <= i < s.len() && (#[trigger] s[i].0) == k),
    decreases s.len(),
{
    if s.len() > 0 {
        lemma_kv_map_dom(s.drop_last());
        assert forall|k: Seq<u8>| #[trigger] kv_map(s).dom().contains(k) implies (exists|i: int|
            0 <= i < s.len() && (#[trigger] s[i].0) == k) by {
            if k == s.last().0 {
                assert(s[s.len() - 1].0 == k);
            } else {
                assert(kv_map(s.drop_last()).dom().contains(k));
                let i = choose|i: int|
                    0 <= i < s.drop_last().len() && (#[trigger] s.drop_last()[i].0) == k;
                assert(s[i].0 == k);
            }
        }
        assert forall|k: Seq<u8>| (exists|i: int| 0 <= i < s.len() && (#[trigger] s[i].0) == k)
            implies #[trigger] kv_map(s).dom().contains(k) by {
            let i = choose|i: int| 0 <= i < s.len() && (#[trigger] s[i].0) == k;
            if i < s.len() - 1 {
                assert(s.drop_last()[i].0 == k);
                assert(kv_map(s.drop_last()).dom().contains(k));
            }
        }
    }
}

/// With distinct keys, the map's value at an entry's key is that entry's value.
pub proof fn lemma_kv_map_value(s: Seq<(Seq<u8>, Seq<u8>)>, i: int)
    requires
        keys_distinct(s),
        0 <= i < s.len(),
    ensures
        kv_map(s).dom().contains(s[i].0),
        kv_map(s)[s[i].0] == s[i].1,
    decreases s.len(),
{
    lemma_kv_map_dom(s);
    if i < s.len() - 1 {
        assert(s.drop_last()[i] == s[i]);
        lemma_kv_map_value(s.drop_last(), i);
        assert(s.last().0 != s[i].0);
    }
}

proof fn lemma_kv_map_insert(s: Seq<(Seq<u8>, Seq<u8>)>, i: int, e: (Seq<u8>, Seq<u8>))
    requires
        0 <= i <= s.len(),
        forall|j: int| 0 <= j < s.len() ==> (#[trigger] s[j].0) != e.0,
    ensures
        kv_map(s.insert(i, e)) == kv_map(s).insert(e.0, e.1),
    decreases s.len(),
{
    if i == s.len() {
        assert(s.insert(i, e).drop_last() =~= s);
        assert(s.insert(i, e).last() == e);
    } else {
        let s2 = s.insert(i, e);
        assert(s2.last() == s.last());
        assert(s2.drop_last() =~= s.drop_last().insert(i, e));
        assert(forall|j: int|
            0 <= j < s.drop_last().len() ==> (#[trigger] s.drop_last()[j].0) != e.0);
        lemma_kv_map_insert(s.drop_last(), i, e);
        assert(kv_map(s.drop_last()).insert(e.0, e.1).insert(s.last().0, s.last().1) =~= kv_map(
            s.drop_last()).insert(s.last().0, s.last().1).insert(e.0, e.1));
    }
}

proof fn lemma_kv_map_update(s: Seq<(Seq<u8>, Seq<u8>)>, i: int, e: (Seq<u8>, Seq<u8>))
    requires
        keys_distinct(s),
        0 <= i < s.len(),
        e.0 == s[i].0,
    ensures
        kv_map(s.update(i, e)) == kv_map(s).insert(e.0, e.1),
    decreases s.len(),
{
    let s2 = s.update(i, e);
    if i == s.len() - 1 {
        assert(s2.drop_last() =~= s.drop_last());
        assert(s2.last() == e);
        assert(kv_map(s.drop_last()).insert(e.0, e.1) =~= kv_map(s.drop_last()).insert(s.last().0,
            s.last().1).insert(e.0, e.1));
    } else {
        assert(s2.last() == s.last());
        assert(s2.drop_last() =~= s.drop_last().update(i, e));
        assert(s.drop_last()[i] == s[i]);
        lemma_kv_map_update(s.drop_last(), i, e);
        assert(s.last().0 != e.0);
        assert(kv_map(s.drop_last()).insert(e.0, e.1).insert(s.last().0, s.last().1) =~= kv_map(
            s.drop_last()).insert(s.last().0, s.last().1).insert(e.0, e.1));
    }
}

proof fn lemma_kv_map_remove(s: Seq<(Seq<u8>, Seq<u8>)>, i: int)
    requires
        keys_distinct(s),
        0 <= i < s.len(),
    ensures
        kv_map(s.remove(i)) == kv_map(s).remove(s[i].0),
    decreases s.len(),
{
    let s2 = s.remove(i);
    if i == s.len() - 1 {
        assert(s2 =~= s.drop_last());
        lemma_kv_map_dom(s.drop_last());
        assert(forall|j: int|
            0 <= j < s.len() - 1 ==> (#[trigger] s.drop_last()[j].0) != s[i].0);
        assert(!kv_map(s.drop_last()).dom().contains(s[i].0));
        assert(kv_map(s.drop_last()).insert(s.last().0, s.last().1).remove(s.last().0) =~= kv_map(
            s.drop_last()));
    } else {
        assert(s2.last() == s.last());
        assert(s2.drop_last() =~= s.drop_last().remove(i));
        assert(s.drop_last()[i] == s[i]);
        lemma_kv_map_remove(s.drop_last(), i);
        assert(s.last().0 != s[i].0);
        assert(kv_map(s.drop_last()).remove(s[i].0).insert(s.last().0, s.last().1) =~= kv_map(
            s.drop_last()).insert(s.last().0, s.last().1).remove(s[i].0));
    }
}

proof fn lemma_sorted_update_value(s: Seq<(Seq<u8>, Seq<u8>)>, i: int, e: (Seq<u8>, Seq<u8>))
    requires
        entries_sorted(s),
        0 <= i < s.len(),
        e.0 == s[i].0,
    ensures
        entries_sorted(s.update(i, e)),
{
    let s2 = s.update(i, e);
    assert forall|a: int| 0 <= a && a + 1 < s2.len() implies lex_lt(#[trigger] s2[a].0,
        s2[a + 1].0) by {
        assert(s2[a].0 == s[a].0 && s2[a + 1].0 == s[a + 1].0);
    }
}

proof fn lemma_sorted_insert(s: Seq<(Seq<u8>, Seq<u8>)>, i: int, e: (Seq<u8>, Seq<u8>))
    requires
        entries_sorted(s),
        0 <= i <= s.len(),
        forall|j: int| 0 <= j < i ==> lex_lt((#[trigger] s[j].0), e.0),
        forall|j: int| i <= j < s.len() ==> lex_lt(e.0, (#[trigger] s[j].0)),
    ensures
        entries_sorted(s.insert(i, e)),
{
    let s2 = s.insert(i, e);
    assert forall|a: int| 0 <= a && a + 1 < s2.len() implies lex_lt(#[trigger] s2[a].0,
        s2[a + 1].0) by {
        if a + 1 < i {
            assert(s2[a] == s[a] && s2[a + 1] == s[a + 1]);
        } else if a + 1 == i {
            assert(s2[a] == s[a] && s2[a + 1] == e);
        } else if a == i {
            assert(s2[a] == e && s2[a + 1] == s[a]);
        } else {
            assert(s2[a] == s[a - 1] && s2[a + 1] == s[a]);
        }
    }
}

proof fn lemma_sorted_remove(s: Seq<(Seq<u8>, Seq<u8>)>, i: int)
    requires
        entries_sorted(s),
        0 <= i < s.len(),
    ensures
        entries_sorted(s.remove(i)),
{
    let s2 = s.remove(i);
    assert forall|a: int| 0 <= a && a + 1 < s2.len() implies lex_lt(#[trigger] s2[a].0,
        s2[a + 1].0) by {
        if a + 1 < i {
            assert(s2[a] == s[a] && s2[a + 1] == s[a + 1]);
        } else if a + 1 == i {
            assert(s2[a] == s[a] && s2[a + 1] == s[a + 1 + 1]);
            lemma_sorted_pairwise(s, a, a + 2);
        } else {
            assert(s2[a] == s[a + 1] && s2[a + 1] == s[a + 1 + 1]);
        }
    }
}

/// Everything at or past `i` is larger than `k` once `s[i]` is.
proof fn lemma_lt_all_beyond(s: Seq<(Seq<u8>, Seq<u8>)>, i: int, k: Seq<u8>)
    requires
        entries_sorted(s),
        0 <= i < s.len(),
        lex_lt(k, s[i].0),
    ensures
        forall|j: int| i <= j < s.len() ==> lex_lt(k, (#[trigger] s[j].0)),
{
    assert forall|j: int| i <= j < s.len() implies lex_lt(k, (#[trigger] s[j].0)) by {
        if j > i {
            lemma_sorted_pairwise(s, i, j);
            lemma_lex_lt_transitive(k, s[i].0, s[j].0);
        }
    }
}

/// How many entries carry keys starting with `p`.
pub open spec fn prefix_count(s: Seq<(Seq<u8>, Seq<u8>)>, p: Seq<u8>) -> int
    decreases s.len(),
{
    if s.len() == 0 {
        0
    } else {
        prefix_count(s.drop_last(), p) + if is_prefix_of(p, s.last().0) {
            1int
        } else {
            0int
        }
    }
}

pub proof fn lemma_prefix_count_nonneg(s: Seq<(Seq<u8>, Seq<u8>)>, p: Seq<u8>)
    ensures
        0 <= prefix_count(s, p),
    decreases s.len(),
{
    if s.len() > 0 {
        lemma_prefix_count_nonneg(s.drop_last(), p);
    }
}

pub proof fn lemma_prefix_count_insert(s: Seq<(Seq<u8>, Seq<u8>)>, i: int, e: (Seq<u8>, Seq<u8>), p: Seq<u8>)
    requires
        0 <= i <= s.len(),
    ensures
        prefix_count(s.insert(i, e), p) == prefix_count(s, p) + if is_prefix_of(p, e.0) {
            1int
        } else {
            0int
        },
    decreases s.len(),
{
    if i == s.len() {
        assert(s.insert(i, e).drop_last() =~= s);
        assert(s.insert(i, e).last() == e);
    } else {
        let s2 = s.insert(i, e);
        assert(s2.last() == s.last());
        assert(s2.drop_last() =~= s.drop_last().insert(i, e));
        lemma_prefix_count_insert(s.drop_last(), i, e, p);
    }
}

pub proof fn lemma_prefix_count_remove(s: Seq<(Seq<u8>, Seq<u8>)>, i: int, p: Seq<u8>)
    requires
        0 <= i < s.len(),
    ensures
        prefix_count(s.remove(i), p) == prefix_count(s, p) - (if is_prefix_of(p, s[i].0) {
            1int
        } else {
            0int
        }),
    decreases s.len(),
{
    let s2 = s.remove(i);
    if i == s.len() - 1 {
        assert(s2 =~= s.drop_last());
    } else {
        assert(s2.last() == s.last());
        assert(s2.drop_last() =~= s.drop_last().remove(i));
        assert(s.drop_last()[i] == s[i]);
        lemma_prefix_count_remove(s.drop_last(), i, p);
    }
}

pub proof fn lemma_prefix_count_update(s: Seq<(Seq<u8>, Seq<u8>)>, i: int, e: (Seq<u8>, Seq<u8>), p: Seq<u8>)
    requires
        0 <= i < s.len(),
    ensures
        prefix_count(s.update(i, e), p) == prefix_count(s, p) - (if is_prefix_of(p, s[i].0) {
            1int
        } else {
            0int
        }) + (if is_prefix_of(p, e.0) {
            1int
        } else {
            0int
        }),
    decreases s.len(),
{
    let s2 = s.update(i, e);
    if i == s.len() - 1 {
        assert(s2.drop_last() =~= s.drop_last());
        assert(s2.last() == e);
    } else {
        assert(s2.last() == s.last());
        assert(s2.drop_last() =~= s.drop_last().update(i, e));
        assert(s.drop_last()[i] == s[i]);
        lemma_prefix_count_update(s.drop_last(), i, e, p);
    }
}

/// A write in an atomic batch.
pub enum WriteOp {
    Put(Vec<u8>, Vec<u8>),
    Delete(Vec<u8>),
}

pub open spec fn apply_write(m: Map<Seq<u8>, Seq<u8>>, w: WriteOp) -> Map<Seq<u8>, Seq<u8>> {
    match w {
        WriteOp::Put(k, v) => m.insert(k@, v@),
        WriteOp::Delete(k) => m.remove(k@),
    }
}

/// The effect of a whole batch, applied in order.
pub open spec fn apply_writes(m: Map<Seq<u8>, Seq<u8>>, ws: Seq<WriteOp>) -> Map<Seq<u8>, Seq<u8>>
    decreases ws.len(),
{
    if ws.len() == 0 {
        m
    } else {
        apply_write(apply_writes(m, ws.drop_last()), ws.last())
    }
}

/// Byte-ordered key-value store.
pub struct KvStore {
    entries: Vec<(Vec<u8>, Vec<u8>)>,
}

impl View for KvStore {
    type V = Map<Seq<u8>, Seq<u8>>;

    open spec fn view(&self) -> Map<Seq<u8>, Seq<u8>> {
        kv_map(self.raw())
    }
}

impl KvStore {
    /// The entries as byte strings, in storage order.
    pub closed spec fn raw(self) -> Seq<(Seq<u8>, Seq<u8>)> {
        raw_of(self.entries@)
    }

    pub open spec fn wf(self) -> bool {
        entries_sorted(self.raw())
    }

    pub fn new() -> (r: KvStore)
        ensures
            r.wf(),
            r.raw() == Seq::<(Seq<u8>, Seq<u8>)>::empty(),
            r@ == Map::<Seq<u8>, Seq<u8>>::empty(),
    {
        let r = KvStore { entries: Vec::new() };
        proof {
            assert(r.raw() =~= Seq::<(Seq<u8>, Seq<u8>)>::empty());
        }
        r
    }

    /// A deep copy with the same contents.
    pub fn snapshot(&self) -> (r: KvStore)
        ensures
            r.raw() == self.raw(),
            r@ == self@,
    {
        let mut entries: Vec<(Vec<u8>, Vec<u8>)> = Vec::new();
        let mut i: usize = 0;
        while i < self.entries.len()
            invariant
                i <= self.entries@.len(),
                raw_of(entries@) == self.raw().take(i as int),
            decreases self.entries@.len() - i,
        {
            let k = copy_bytes(&self.entries[i].0);
            let v = copy_bytes(&self.entries[i].1);
            let ghost ents0 = entries@;
            entries.push((k, v));
            i = i + 1;
            proof {
                lemma_raw_index(ents0);
                lemma_raw_index(entries@);
                lemma_raw_index(self.entries@);
                assert forall|j: int| 0 <= j < i implies raw_of(entries@)[j] == self.raw().take(
                    i as int)[j] by {
                    if j < i - 1 {
                        assert(raw_of(ents0)[j] == self.raw().take(i - 1)[j]);
                    }
                }
                assert(raw_of(entries@) =~~= self.raw().take(i as int));
            }
        }
        let r = KvStore { entries };
        proof {
            assert(self.raw().take(self.raw().len() as int) =~= self.raw());
        }
        r
    }

    /// Point read: the value stored under `key`, if any.
    pub fn get(&self, key: &Vec<u8>) -> (r: Option<&Vec<u8>>)
        requires
            self.wf(),
        ensures
            match r {
                Some(v) => self@.dom().contains(key@) && v@ == self@[key@],
                None => !self@.dom().contains(key@),
            },
    {
        let mut i: usize = 0;
        while i < self.entries.len()
            invariant
                self.wf(),
                i <= self.entries@.len(),
                forall|j: int| 0 <= j < i ==> (#[trigger] self.raw()[j].0) != key@,
            decreases self.entries@.len() - i,
        {
            if bytes_eq(&self.entries[i].0, key) {
                proof {
                    lemma_raw_index(self.entries@);
                    lemma_sorted_distinct(self.raw());
                    lemma_kv_map_value(self.raw(), i as int);
                }
                return Some(&self.entries[i].1);
            }
            i = i + 1;
        }
        proof {
            lemma_kv_map_dom(self.raw());
        }
        None
    }

    /// Point write: after the call the store maps `key` to `val` and is
    /// otherwise unchanged. The returned ghost index says where the entry
    /// sits: an in-place replacement when the key existed, an insertion else.
    pub fn put(&mut self, key: Vec<u8>, val: Vec<u8>) -> (gi: Ghost<int>)
        requires
            old(self).wf(),
        ensures
            final(self).wf(),
            final(self)@ == old(self)@.insert(key@, val@),
            old(self)@.dom().contains(key@) ==> 0 <= gi@ < old(self).raw().len() && old(
                self).raw()[gi@].0 == key@ && final(self).raw() == old(self).raw().update(
                gi@, (key@, val@)),
            !old(self)@.dom().contains(key@) ==> 0 <= gi@ <= old(self).raw().len() && final(
                self).raw() == old(self).raw().insert(gi@, (key@, val@)),
    {
        let ghost s0 = self.raw();
        let mut i: usize = 0;
        while i < self.entries.len()
            invariant
                s0 == old(self).raw(),
                self.raw() == s0,
                self.wf(),
                i <= self.entries@.len(),
                forall|j: int| 0 <= j < i ==> lex_lt((#[trigger] self.raw()[j].0), key@),
            decreases self.entries@.len() - i,
        {
            let c = lex_cmp(&self.entries[i].0, &key);
            if c == 0 {
                // Same key: replace the value in place.
                let _ = self.entries.remove(i);
                self.entries.insert(i, (key, val));
                proof {
                    lemma_raw_index(self.entries@);
                    let e = (s0[i as int].0, val@);
                    assert(s0[i as int].0 == key@);
                    assert(self.raw() =~~= s0.update(i as int, e));
                    lemma_sorted_distinct(s0);
                    lemma_kv_map_dom(s0);
                    lemma_kv_map_update(s0, i as int, e);
                    lemma_sorted_update_value(s0, i as int, e);
                }
                return Ghost(i as int);
            }
            if c == 1 {
                // First key beyond the new one: insert before it.
                self.entries.insert(i, (key, val));
                proof {
                    lemma_raw_index(self.entries@);
                    let e = (key@, val@);
                    assert(self.raw() =~~= s0.insert(i as int, e));
                    lemma_lt_all_beyond(s0, i as int, key@);
                    lemma_kv_map_dom(s0);
                    assert forall|j: int| 0 <= j < s0.len() implies (#[trigger] s0[j].0)
                        != key@ by {
                        lemma_lex_lt_total(s0[j].0, key@);
                    }
                    lemma_kv_map_insert(s0, i as int, e);
                    lemma_sorted_insert(s0, i as int, e);
                }
                return Ghost(i as int);
            }
            i = i + 1;
        }
        // Every key is smaller: append at the end.
        let ghost n = s0.len() as int;
        self.entries.push((key, val));
        proof {
            lemma_raw_index(self.entries@);
            let e = (key@, val@);
            assert(self.raw() =~~= s0.insert(n, e));
            lemma_kv_map_dom(s0);
            assert forall|j: int| 0 <= j < s0.len() implies (#[trigger] s0[j].0) != key@ by {
                lemma_lex_lt_total(s0[j].0, key@);
            }
            lemma_kv_map_insert(s0, n, e);
            lemma_sorted_insert(s0, n, e);
        }
        Ghost(n)
    }

    /// Point delete: removes the entry for `key`, if one exists.
    pub fn delete(&mut self, key: &Vec<u8>) -> (gi: Ghost<int>)
        requires
            old(self).wf(),
        ensures
            final(self).wf(),
            final(self)@ == old(self)@.remove(key@),
            old(self)@.dom().contains(key@) ==> 0 <= gi@ < old(self).raw().len() && old(
                self).raw()[gi@].0 == key@ && final(self).raw() == old(self).raw().remove(gi@),
            !old(self)@.dom().contains(key@) ==> final(self).raw() == old(self).raw(),
    {
        let ghost s0 = self.raw();
        let mut i: usize = 0;
        while i < self.entries.len()
            invariant
                s0 == old(self).raw(),
                self.raw() == s0,
                self.wf(),
                i <= self.entries@.len(),
                forall|j: int| 0 <= j < i ==> (#[trigger] self.raw()[j].0) != key@,
            decreases self.entries@.len() - i,
        {
            if bytes_eq(&self.entries[i].0, key) {
                let ghost hit = s0[i as int];
                let _ = self.entries.remove(i);
                proof {
                    lemma_raw_index(self.entries@);
                    assert(hit.0 == key@);
                    assert(self.raw() =~~= s0.remove(i as int));
                    lemma_sorted_distinct(s0);
                    lemma_kv_map_dom(s0);
                    lemma_kv_map_remove(s0, i as int);
                    lemma_sorted_remove(s0, i as int);
                }
                return Ghost(i as int);
            }
            i = i + 1;
        }
        proof {
            lemma_kv_map_dom(s0);
            assert(!self@.dom().contains(key@));
            assert(self@ =~= self@.remove(key@));
        }
        Ghost(0)
    }

    /// Ordered prefix scan: exactly the committed entries whose key starts
    /// with `prefix`, in ascending key order.
    #[verifier::rlimit(100)]
    pub fn range(&self, prefix: &Vec<u8>) -> (r: Vec<(Vec<u8>, Vec<u8>)>)
        requires
            self.wf(),
        ensures
            forall|j: int|
                0 <= j < r@.len() ==> is_prefix_of(prefix@, (#[trigger] r@[j]).0@)
                    && self@.dom().contains(r@[j].0@) && self@[r@[j].0@] == r@[j].1@,
            forall|k: Seq<u8>|
                #[trigger] self@.dom().contains(k) && is_prefix_of(prefix@, k) ==> (exists|j: int|
                    0 <= j < r@.len() && (#[trigger] r@[j]).0@ == k),
            forall|a: int, b: int|
                0 <= a < b < r@.len() ==> lex_lt((#[trigger] r@[a]).0@, (#[trigger] r@[b]).0@),
            r@.len() == prefix_count(self.raw(), prefix@),
    {
        let mut r: Vec<(Vec<u8>, Vec<u8>)> = Vec::new();
        let mut i: usize = 0;
        while i < self.entries.len()
            invariant
                self.wf(),
                i <= self.entries@.len(),
                forall|j: int|
                    0 <= j < r@.len() ==> is_prefix_of(prefix@, (#[trigger] r@[j]).0@)
                        && self@.dom().contains(r@[j].0@) && self@[r@[j].0@] == r@[j].1@,
                forall|a: int|
                    0 <= a < i && is_prefix_of(prefix@, (#[trigger] self.raw()[a]).0) ==> (
                    exists|j: int| 0 <= j < r@.len() && (#[trigger] r@[j]).0@ == self.raw()[a].0),
                forall|j: int|
                    0 <= j < r@.len() ==> (exists|a: int|
                        0 <= a < i && (#[trigger] r@[j]).0@ == self.raw()[a].0),
                forall|a: int, b: int|
                    0 <= a < b < r@.len() ==> lex_lt((#[trigger] r@[a]).0@, (#[trigger] r@[b]).0@),
                r@.len() == prefix_count(self.raw().take(i as int), prefix@),
            decreases self.entries@.len() - i,
        {
            let ghost r_len0 = r@.len();
            if has_prefix(&self.entries[i].0, prefix) {
                let k = copy_bytes(&self.entries[i].0);
                let v = copy_bytes(&self.entries[i].1);
                let ghost r0 = r@;
                proof {
                    lemma_raw_index(self.entries@);
                    lemma_sorted_distinct(self.raw());
                    lemma_kv_map_value(self.raw(), i as int);
                    assert forall|j: int| 0 <= j < r@.len() implies lex_lt((#[trigger] r@[j]).0@,
                        k@) by {
                        let a = choose|a: int| 0 <= a < i && (#[trigger] r@[j]).0@ == self.raw()[
                            a].0;
                        lemma_sorted_pairwise(self.raw(), a, i as int);
                    }
                }
                r.push((k, v));
                proof {
                    assert((r@[r@.len() - 1]).0@ == self.raw()[i as int].0);
                    assert forall|a: int|
                        0 <= a < i + 1 && is_prefix_of(prefix@, (#[trigger] self.raw()[a]).0)
                        implies (exists|j: int|
                        0 <= j < r@.len() && (#[trigger] r@[j]).0@ == self.raw()[a].0) by {
                        if a < i {
                            let j = choose|j: int|
                                0 <= j < r0.len() && (#[trigger] r0[j]).0@ == self.raw()[a].0;
                            assert((r@[j]).0@ == self.raw()[a].0);
                        } else {
                            assert((r@[r@.len() - 1]).0@ == self.raw()[a].0);
                        }
                    }
                    assert forall|j: int| 0 <= j < r@.len() implies (exists|a: int|
                        0 <= a < i + 1 && (#[trigger] r@[j]).0@ == self.raw()[a].0) by {
                        if j < r0.len() {
                            let a = choose|a: int|
                                0 <= a < i && (#[trigger] r0[j]).0@ == self.raw()[a].0;
                            assert((r@[j]).0@ == self.raw()[a].0);
                        } else {
                            assert((r@[j]).0@ == self.raw()[i as int].0);
                        }
                    }
                }
            } else {
                proof {
                    lemma_raw_index(self.entries@);
                    assert(!is_prefix_of(prefix@, self.raw()[i as int].0));
                }
            }
            i = i + 1;
            proof {
                assert(self.raw().take(i as int).drop_last() =~= self.raw().take(i - 1));
                assert(self.raw().take(i as int).last() == self.raw()[i - 1]);
            }
        }
        proof {
            assert(self.raw().take(self.raw().len() as int) =~= self.raw());
            lemma_kv_map_dom(self.raw());
            assert forall|k: Seq<u8>|
                #[trigger] self@.dom().contains(k) && is_prefix_of(prefix@, k) implies (exists|
            j: int| 0 <= j < r@.len() && (#[trigger] r@[j]).0@ == k) by {
                let a = choose|a: int|
                    0 <= a < self.raw().len() && (#[trigger] self.raw()[a].0) == k;
                assert(is_prefix_of(prefix@, self.raw()[a].0));
            }
        }
        r
    }

    /// How many entries carry keys starting with `prefix`.
    pub fn count_prefix(&self, prefix: &Vec<u8>) -> (r: usize)
        ensures
            r as int == prefix_count(self.raw(), prefix@),
    {
        let mut c: usize = 0;
        let mut i: usize = 0;
        while i < self.entries.len()
            invariant
                i <= self.entries@.len(),
                c <= i,
                c as int == prefix_count(self.raw().take(i as int), prefix@),
            decreases self.entries@.len() - i,
        {
            if has_prefix(&self.entries[i].0, prefix) {
                c = c + 1;
            }
            i = i + 1;
            proof {
                lemma_raw_index(self.entries@);
                assert(self.raw().take(i as int).drop_last() =~= self.raw().take(i - 1));
                assert(self.raw().take(i as int).last() == self.raw()[i - 1]);
            }
        }
        proof {
            assert(self.raw().take(self.raw().len() as int) =~= self.raw());
        }
        c
    }

    /// Applies a batch of writes as one transaction: the store afterwards
    /// reflects every write, applied in batch order.
    pub fn apply_batch(&mut self, ops: &Vec<WriteOp>)
        requires
            old(self).wf(),
        ensures
            final(self).wf(),
            final(self)@ == apply_writes(old(self)@, ops@),
    {
        let mut i: usize = 0;
        while i < ops.len()
            invariant
                self.wf(),
                i <= ops@.len(),
                self@ == apply_writes(old(self)@, ops@.take(i as int)),
            decreases ops@.len() - i,
        {
            match &ops[i] {
                WriteOp::Put(k, v) => {
                    let _ = self.put(copy_bytes(k), copy_bytes(v));
                }
                WriteOp::Delete(k) => {
                    let _ = self.delete(k);
                }
            }
            i = i + 1;
            proof {
                assert(ops@.take(i as int).drop_last() =~= ops@.take(i - 1));
                assert(ops@.take(i as int).last() == ops@[i - 1]);
            }
        }
        proof {
            assert(ops@.take(ops@.len() as int) =~= ops@);
        }
    }
}

} // verus!
