//! Byte-level helpers: big-endian integer encodings, byte-string equality,
//! prefix tests, and the lexicographic order that the store sorts keys by.

use vstd::prelude::*;

verus! {

/// Big-endian encoding of a `u64` as eight bytes.
pub open spec fn u64_be(v: u64) -> Seq<u8> {
    seq![
        (v >> 56) as u8,
        (v >> 48) as u8,
        (v >> 40) as u8,
        (v >> 32) as u8,
        (v >> 24) as u8,
        (v >> 16) as u8,
        (v >> 8) as u8,
        v as u8,
    ]
}

/// The `u64` read back from eight big-endian bytes.
pub open spec fn be_u64(s: Seq<u8>) -> u64
    recommends
        s.len() == 8,
{
    (((s[0] as u64) << 56) | ((s[1] as u64) << 48) | ((s[2] as u64) << 40)
        | ((s[3] as u64) << 32) | ((s[4] as u64) << 24) | ((s[5] as u64) << 16)
        | ((s[6] as u64) << 8) | (s[7] as u64)) as u64
}

/// Decoding inverts encoding, so the eight-byte encoding is injective.
pub proof fn lemma_u64_be_round_trip(v: u64)
    ensures
        be_u64(u64_be(v)) == v,
{
    assert((((((v >> 56) as u8) as u64) << 56) | ((((v >> 48) as u8) as u64) << 48)
        | ((((v >> 40) as u8) as u64) << 40) | ((((v >> 32) as u8) as u64) << 32)
        | ((((v >> 24) as u8) as u64) << 24) | ((((v >> 16) as u8) as u64) << 16)
        | ((((v >> 8) as u8) as u64) << 8) | ((v as u8) as u64)) == v) by (bit_vector);
}

/// Encoding the decoded value gives back any eight-byte string.
pub proof fn lemma_be_u64_inverse(s: Seq<u8>)
    requires
        s.len() == 8,
    ensures
        u64_be(be_u64(s)) == s,
{
    let x0 = s[0];
    let x1 = s[1];
    let x2 = s[2];
    let x3 = s[3];
    let x4 = s[4];
    let x5 = s[5];
    let x6 = s[6];
    let x7 = s[7];
    let v = be_u64(s);
    assert(v == (((x0 as u64) << 56) | ((x1 as u64) << 48) | ((x2 as u64) << 40) | ((
    x3 as u64) << 32) | ((x4 as u64) << 24) | ((x5 as u64) << 16) | ((x6 as u64) << 8) | (
    x7 as u64)) as u64);
    assert({
        let w = (((x0 as u64) << 56) | ((x1 as u64) << 48) | ((x2 as u64) << 40) | ((
        x3 as u64) << 32) | ((x4 as u64) << 24) | ((x5 as u64) << 16) | ((x6 as u64) << 8) | (
        x7 as u64)) as u64;
        (w >> 56) as u8 == x0 && (w >> 48) as u8 == x1 && (w >> 40) as u8 == x2 && (w >> 32) as u8
            == x3 && (w >> 24) as u8 == x4 && (w >> 16) as u8 == x5 && (w >> 8) as u8 == x6
            && w as u8 == x7
    }) by (bit_vector);
    assert(u64_be(v) =~= s);
}

/// Big-endian encoding of a `u16` as two bytes.
pub open spec fn u16_be(v: u16) -> Seq<u8> {
    seq![(v >> 8) as u8, v as u8]
}

/// The `u16` read back from two big-endian bytes.
pub open spec fn be_u16(s: Seq<u8>) -> u16
    recommends
        s.len() == 2,
{
    (((s[0] as u16) << 8) | (s[1] as u16)) as u16
}

/// Encoding the decoded value gives back any two-byte string.
pub proof fn lemma_be_u16_inverse(s: Seq<u8>)
    requires
        s.len() == 2,
    ensures
        u16_be(be_u16(s)) == s,
{
    let x = s[0];
    let y = s[1];
    assert(((((x as u16) << 8) | (y as u16)) >> 8) as u8 == x) by (bit_vector);
    assert((((x as u16) << 8) | (y as u16)) as u8 == y) by (bit_vector);
    assert(u16_be(be_u16(s)) =~= s);
}

pub proof fn lemma_u16_be_round_trip(v: u16)
    ensures
        be_u16(u16_be(v)) == v,
{
    assert((((((v >> 8) as u8) as u16) << 8) | ((v as u8) as u16)) == v) by (bit_vector);
}

pub fn u64_to_be(v: u64) -> (r: Vec<u8>)
    ensures
        r@ == u64_be(v),
{
    let mut r: Vec<u8> = Vec::new();
    r.push((v >> 56) as u8);
    r.push((v >> 48) as u8);
    r.push((v >> 40) as u8);
    r.push((v >> 32) as u8);
    r.push((v >> 24) as u8);
    r.push((v >> 16) as u8);
    r.push((v >> 8) as u8);
    r.push(v as u8);
    proof {
        assert(r@ =~= u64_be(v));
    }
    r
}

/// Reads the eight bytes starting at `off` as a big-endian `u64`.
pub fn u64_from_be(b: &Vec<u8>, off: usize) -> (r: u64)
    requires
        off + 8 <= b@.len(),
    ensures
        r == be_u64(b@.subrange(off as int, off + 8)),
{
    let _n: usize = b.len();
    let r = ((b[off] as u64) << 56) | ((b[off + 1] as u64) << 48) | ((b[off + 2] as u64) << 40)
        | ((b[off + 3] as u64) << 32) | ((b[off + 4] as u64) << 24) | ((b[off + 5] as u64) << 16)
        | ((b[off + 6] as u64) << 8) | (b[off + 7] as u64);
    proof {
        let s = b@.subrange(off as int, off + 8);
        assert(s[0] == b@[off as int]);
        assert(s[7] == b@[off + 7]);
    }
    r
}

pub fn u16_to_be(v: u16) -> (r: Vec<u8>)
    ensures
        r@ == u16_be(v),
{
    let mut r: Vec<u8> = Vec::new();
    r.push((v >> 8) as u8);
    r.push(v as u8);
    proof {
        assert(r@ =~= u16_be(v));
    }
    r
}

/// Reads the two bytes starting at `off` as a big-endian `u16`.
pub fn u16_from_be(b: &Vec<u8>, off: usize) -> (r: u16)
    requires
        off + 2 <= b@.len(),
    ensures
        r == be_u16(b@.subrange(off as int, off + 2)),
{
    let _n: usize = b.len();
    let r = ((b[off] as u16) << 8) | (b[off + 1] as u16);
    proof {
        let s = b@.subrange(off as int, off + 2);
        assert(s[0] == b@[off as int]);
        assert(s[1] == b@[off + 1]);
    }
    r
}

pub fn copy_bytes(v: &Vec<u8>) -> (r: Vec<u8>)
    ensures
        r@ == v@,
{
    let mut r: Vec<u8> = Vec::new();
    let mut i: usize = 0;
    while i < v.len()
        invariant
            i <= v@.len(),
            r@ == v@.subrange(0, i as int),
        decreases v@.len() - i,
    {
        r.push(v[i]);
        i = i + 1;
        proof {
            assert(r@ =~= v@.subrange(0, i as int));
        }
    }
    proof {
        assert(v@.subrange(0, v@.len() as int) =~= v@);
    }
    r
}

/// Copies the bytes from `from` (inclusive) to the end.
pub fn copy_tail(v: &Vec<u8>, from: usize) -> (r: Vec<u8>)
    requires
        from <= v@.len(),
    ensures
        r@ == v@.subrange(from as int, v@.len() as int),
{
    let mut r: Vec<u8> = Vec::new();
    let mut i: usize = from;
    while i < v.len()
        invariant
            from <= i <= v@.len(),
            r@ == v@.subrange(from as int, i as int),
        decreases v@.len() - i,
    {
        r.push(v[i]);
        i = i + 1;
        proof {
            assert(r@ =~= v@.subrange(from as int, i as int));
        }
    }
    r
}

pub fn bytes_eq(a: &Vec<u8>, b: &Vec<u8>) -> (r: bool)
    ensures
        r == (a@ == b@),
{
    if a.len() != b.len() {
        proof {
            assert(a@ != b@);
        }
        return false;
    }
    let mut i: usize = 0;
    while i < a.len()
        invariant
            i <= a@.len(),
            a@.len() == b@.len(),
            forall|j: int| 0 <= j < i ==> a@[j] == b@[j],
        decreases a@.len() - i,
    {
        if a[i] != b[i] {
            return false;
        }
        i = i + 1;
    }
    proof {
        assert(a@ =~= b@);
    }
    true
}

/// `p` is an initial segment of `k`.
pub open spec fn is_prefix_of(p: Seq<u8>, k: Seq<u8>) -> bool {
    p.len() <= k.len() && k.subrange(0, p.len() as int) == p
}

pub fn has_prefix(k: &Vec<u8>, p: &Vec<u8>) -> (r: bool)
    ensures
        r == is_prefix_of(p@, k@),
{
    if p.len() > k.len() {
        return false;
    }
    let mut i: usize = 0;
    while i < p.len()
        invariant
            i <= p@.len(),
            p@.len() <= k@.len(),
            forall|j: int| 0 <= j < i ==> k@[j] == p@[j],
        decreases p@.len() - i,
    {
        if k[i] != p[i] {
            proof {
                assert(k@.subrange(0, p@.len() as int)[i as int] == k@[i as int]);
            }
            return false;
        }
        i = i + 1;
    }
    proof {
        assert(k@.subrange(0, p@.len() as int) =~= p@);
    }
    true
}

/// Strict lexicographic order on byte strings: the order the store keeps
/// its keys in, which is also the byte-wise order of encoded keys.
pub open spec fn lex_lt(a: Seq<u8>, b: Seq<u8>) -> bool
    decreases a.len(),
{
    if b.len() == 0 {
        false
    } else if a.len() == 0 {
        true
    } else if a[0] < b[0] {
        true
    } else if a[0] > b[0] {
        false
    } else {
        lex_lt(a.skip(1), b.skip(1))
    }
}

pub proof fn lemma_lex_lt_irreflexive(a: Seq<u8>)
    ensures
        !lex_lt(a, a),
    decreases a.len(),
{
    if a.len() > 0 {
        lemma_lex_lt_irreflexive(a.skip(1));
    }
}

/// Exactly one of `a < b`, `a == b`, `b < a` holds.
pub proof fn lemma_lex_lt_total(a: Seq<u8>, b: Seq<u8>)
    ensures
        lex_lt(a, b) || lex_lt(b, a) || a == b,
        lex_lt(a, b) ==> !lex_lt(b, a) && a != b,
    decreases a.len(),
{
    if a.len() == 0 || b.len() == 0 {
        if a.len() == 0 && b.len() == 0 {
            assert(a =~= b);
        }
    } else if a[0] == b[0] {
        lemma_lex_lt_total(a.skip(1), b.skip(1));
        if a.skip(1) == b.skip(1) {
            assert(a =~= b) by {
                assert(forall|i: int|
                    1 <= i < a.len() ==> a[i] == a.skip(1)[i - 1] && b[i] == b.skip(1)[i - 1]);
            }
        }
        if a == b {
            assert(a.skip(1) == b.skip(1));
        }
    }
    if lex_lt(a, b) && a == b {
        lemma_lex_lt_irreflexive(a);
    }
}

pub proof fn lemma_lex_lt_transitive(a: Seq<u8>, b: Seq<u8>, c: Seq<u8>)
    requires
        lex_lt(a, b),
        lex_lt(b, c),
    ensures
        lex_lt(a, c),
    decreases a.len(),
{
    if c.len() == 0 {
        // lex_lt(b, c) would be false
    } else if a.len() == 0 {
        // lex_lt(a, c) holds outright
    } else {
        // a, b, c all nonempty: b nonempty since lex_lt(a, b) with a nonempty
        if a[0] == b[0] && b[0] == c[0] {
            lemma_lex_lt_transitive(a.skip(1), b.skip(1), c.skip(1));
        }
    }
}

/// Comparing two byte strings settles the lexicographic order exactly.
pub fn lex_cmp(a: &Vec<u8>, b: &Vec<u8>) -> (r: i8)
    ensures
        r == -1i8 || r == 0i8 || r == 1i8,
        (r == -1i8) <==> lex_lt(a@, b@),
        (r == 0i8) <==> (a@ == b@),
        (r == 1i8) <==> lex_lt(b@, a@),
{
    let mut i: usize = 0;
    let a_len = a.len();
    let b_len = b.len();
    let min: usize = if a_len < b_len {
        a_len
    } else {
        b_len
    };
    while i < min
        invariant
            i <= min,
            min <= a@.len(),
            min <= b@.len(),
            min == if a@.len() < b@.len() {
                a@.len()
            } else {
                b@.len()
            },
            forall|j: int| 0 <= j < i ==> a@[j] == b@[j],
        decreases min - i,
    {
        if a[i] < b[i] {
            proof {
                assert(a@.skip(i as int)[0] == a@[i as int]);
                assert(b@.skip(i as int)[0] == b@[i as int]);
                lemma_lex_lt_skip(a@, b@, i as int);
                lemma_lex_lt_total(a@, b@);
            }
            return -1;
        }
        if a[i] > b[i] {
            proof {
                assert(b@.skip(i as int)[0] == b@[i as int]);
                assert(a@.skip(i as int)[0] == a@[i as int]);
                lemma_lex_lt_skip(b@, a@, i as int);
                lemma_lex_lt_total(a@, b@);
            }
            return 1;
        }
        i = i + 1;
    }
    proof {
        lemma_lex_lt_skip(a@, b@, min as int);
        lemma_lex_lt_skip(b@, a@, min as int);
    }
    if a_len < b_len {
        proof {
            lemma_lex_lt_total(a@, b@);
        }
        -1
    } else if a_len > b_len {
        proof {
            lemma_lex_lt_total(a@, b@);
        }
        1
    } else {
        proof {
            assert(a@ =~= b@);
            lemma_lex_lt_irreflexive(a@);
        }
        0
    }
}

/// While the first `i` bytes agree, the order is settled by the remainders.
proof fn lemma_lex_lt_skip(a: Seq<u8>, b: Seq<u8>, i: int)
    requires
        0 <= i <= a.len(),
        i <= b.len(),
        forall|j: int| 0 <= j < i ==> a[j] == b[j],
    ensures
        lex_lt(a, b) == lex_lt(a.skip(i), b.skip(i)),
    decreases i,
{
    if i > 0 {
        assert(a.len() > 0 && b.len() > 0);
        assert(a[0] == b[0]);
        assert(forall|j: int| 0 <= j < i - 1 ==> a.skip(1)[j] == b.skip(1)[j]) by {
            assert(forall|j: int|
                0 <= j < i - 1 ==> a.skip(1)[j] == a[j + 1] && b.skip(1)[j] == b[j + 1]);
        }
        lemma_lex_lt_skip(a.skip(1), b.skip(1), i - 1);
        assert(a.skip(1).skip(i - 1) =~= a.skip(i));
        assert(b.skip(1).skip(i - 1) =~= b.skip(i));
    } else {
        assert(a.skip(0) =~= a);
        assert(b.skip(0) =~= b);
    }
}

} // verus!
