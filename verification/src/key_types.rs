//! Byte-string keys: the order of user keys, and internal keys, which carry a
//! sequence number and an entry kind behind the user key.

use vstd::prelude::*;
use crate::types::{ValueType, MAX_SEQUENCE_NUMBER};

verus! {

/// `a` sorts before `b` from position `i` on, given that they agree before `i`.
pub open spec fn lex_lt_from(a: Seq<u8>, b: Seq<u8>, i: int) -> bool
    decreases a.len() - i,
{
    if i < 0 || i >= b.len() {
        false
    } else if i >= a.len() {
        true
    } else if a[i] != b[i] {
        a[i] < b[i]
    } else {
        lex_lt_from(a, b, i + 1)
    }
}

/// Bytewise lexicographic order on user keys: `a` sorts strictly before `b`.
pub open spec fn lex_lt(a: Seq<u8>, b: Seq<u8>) -> bool {
    lex_lt_from(a, b, 0)
}

/// `a` sorts before `b` or equals it.
pub open spec fn lex_le(a: Seq<u8>, b: Seq<u8>) -> bool {
    !lex_lt(b, a)
}

/// Two keys that agree before `i` and neither of which sorts before the other
/// from `i` on are the same key.
pub proof fn lemma_lex_from_antisym(a: Seq<u8>, b: Seq<u8>, i: int)
    requires
        0 <= i,
        i <= a.len(),
        i <= b.len(),
        forall|j: int| 0 <= j < i ==> a[j] == b[j],
        !lex_lt_from(a, b, i),
        !lex_lt_from(b, a, i),
    ensures
        a == b,
    decreases a.len() - i,
{
    if i >= a.len() || i >= b.len() {
        assert(a =~= b);
    } else {
        lemma_lex_from_antisym(a, b, i + 1);
    }
}

/// No key sorts before itself.
pub proof fn lemma_lex_irreflexive(a: Seq<u8>, i: int)
    requires
        0 <= i,
    ensures
        !lex_lt_from(a, a, i),
    decreases a.len() - i,
{
    if i < a.len() {
        lemma_lex_irreflexive(a, i + 1);
    }
}

/// Of two different keys exactly one sorts before the other; of two equal
/// keys neither does.
pub proof fn lemma_lex_trichotomy(a: Seq<u8>, b: Seq<u8>)
    ensures
        a == b <==> (!lex_lt(a, b) && !lex_lt(b, a)),
        !(lex_lt(a, b) && lex_lt(b, a)),
{
    lemma_lex_irreflexive(a, 0);
    if !lex_lt(a, b) && !lex_lt(b, a) {
        lemma_lex_from_antisym(a, b, 0);
    }
    lemma_lex_asym_from(a, b, 0);
}

/// From any position on, at most one of two keys sorts before the other.
pub proof fn lemma_lex_asym_from(a: Seq<u8>, b: Seq<u8>, i: int)
    requires
        0 <= i,
    ensures
        !(lex_lt_from(a, b, i) && lex_lt_from(b, a, i)),
    decreases a.len() - i,
{
    if i < a.len() && i < b.len() && a[i] == b[i] {
        lemma_lex_asym_from(a, b, i + 1);
    }
}

/// The order is transitive from any position on.
pub proof fn lemma_lex_trans_from(a: Seq<u8>, b: Seq<u8>, c: Seq<u8>, i: int)
    requires
        0 <= i,
        lex_lt_from(a, b, i),
        lex_lt_from(b, c, i),
    ensures
        lex_lt_from(a, c, i),
    decreases b.len() - i,
{
    if i < a.len() && i < b.len() && i < c.len() && a[i] == b[i] && b[i] == c[i] {
        lemma_lex_trans_from(a, b, c, i + 1);
    }
}

/// Bytewise order is transitive, also where one of the two steps allows
/// equality.
pub proof fn lemma_lex_transitive(a: Seq<u8>, b: Seq<u8>, c: Seq<u8>)
    ensures
        lex_lt(a, b) && lex_lt(b, c) ==> lex_lt(a, c),
        lex_le(a, b) && lex_lt(b, c) ==> lex_lt(a, c),
        lex_lt(a, b) && lex_le(b, c) ==> lex_lt(a, c),
        lex_le(a, b) && lex_le(b, c) ==> lex_le(a, c),
{
    lemma_lex_trichotomy(a, b);
    lemma_lex_trichotomy(b, c);
    lemma_lex_trichotomy(a, c);
    if lex_lt(a, b) && lex_lt(b, c) {
        lemma_lex_trans_from(a, b, c, 0);
    }
    if lex_le(a, b) && lex_le(b, c) && lex_lt(c, a) {
        if lex_lt(a, b) {
            lemma_lex_trans_from(c, a, b, 0);
        } else if lex_lt(b, c) {
            lemma_lex_trans_from(b, c, a, 0);
        }
    }
}

/// Whether `a` sorts strictly before `b` in bytewise order.
pub fn bytes_lt(a: &[u8], b: &[u8]) -> (r: bool)
    ensures
        r == lex_lt(a@, b@),
{
    let mut i: usize = 0;
    while i < a.len() && i < b.len()
        invariant
            i <= a.len(),
            i <= b.len(),
            lex_lt(a@, b@) == lex_lt_from(a@, b@, i as int),
        decreases a.len() - i,
    {
        if a[i] != b[i] {
            return a[i] < b[i];
        }
        i += 1;
    }
    i < b.len()
}

/// Whether `a` sorts before `b` or equals it.
pub fn bytes_le(a: &[u8], b: &[u8]) -> (r: bool)
    ensures
        r == lex_le(a@, b@),
{
    !bytes_lt(b, a)
}

/// Whether the two keys hold the same bytes.
pub fn bytes_eq(a: &[u8], b: &[u8]) -> (r: bool)
    ensures
        r == (a@ == b@),
{
    if a.len() != b.len() {
        return false;
    }
    let mut i: usize = 0;
    while i < a.len()
        invariant
            i <= a.len(),
            a.len() == b.len(),
            forall|j: int| 0 <= j < i ==> a@[j] == b@[j],
        decreases a.len() - i,
    {
        if a[i] != b[i] {
            return false;
        }
        i += 1;
    }
    assert(a@ =~= b@);
    true
}

/// A fresh vector with the bytes of `src`.
pub fn copy_bytes(src: &[u8]) -> (r: Vec<u8>)
    ensures
        r@ == src@,
{
    let mut out: Vec<u8> = Vec::new();
    let mut i: usize = 0;
    while i < src.len()
        invariant
            i <= src.len(),
            out@ == src@.subrange(0, i as int),
        decreases src.len() - i,
    {
        out.push(src[i]);
        i += 1;
        assert(out@ =~= src@.subrange(0, i as int));
    }
    assert(out@ =~= src@);
    out
}

/// The number that eight bytes stand for, least significant byte first.
pub open spec fn le_u64(b: Seq<u8>) -> int
    recommends
        b.len() == 8,
{
    b[0] as int + 0x100 * (b[1] as int) + 0x1_0000 * (b[2] as int) + 0x100_0000 * (b[3] as int)
        + 0x1_0000_0000 * (b[4] as int) + 0x100_0000_0000 * (b[5] as int) + 0x1_0000_0000_0000 * (
    b[6] as int) + 0x100_0000_0000_0000 * (b[7] as int)
}

/// The eight bytes that stand for `v`, least significant byte first.
pub open spec fn le_bytes(v: u64) -> Seq<u8> {
    seq![
        (v % 0x100) as u8,
        ((v / 0x100) % 0x100) as u8,
        ((v / 0x1_0000) % 0x100) as u8,
        ((v / 0x100_0000) % 0x100) as u8,
        ((v / 0x1_0000_0000) % 0x100) as u8,
        ((v / 0x100_0000_0000) % 0x100) as u8,
        ((v / 0x1_0000_0000_0000) % 0x100) as u8,
        ((v / 0x100_0000_0000_0000) % 0x100) as u8,
    ]
}

/// Reading back the eight bytes written for `v` gives `v`.
pub proof fn lemma_le_roundtrip(v: u64)
    ensures
        le_bytes(v).len() == 8,
        le_u64(le_bytes(v)) == v,
{
    let q1: u64 = v / 0x100;
    let q2: u64 = q1 / 0x100;
    let q3: u64 = q2 / 0x100;
    let q4: u64 = q3 / 0x100;
    let q5: u64 = q4 / 0x100;
    let q6: u64 = q5 / 0x100;
    let q7: u64 = q6 / 0x100;
    assert(v / 0x1_0000 == (v / 0x100) / 0x100) by (bit_vector);
    assert(v / 0x100_0000 == ((v / 0x100) / 0x100) / 0x100) by (bit_vector);
    assert(v / 0x1_0000_0000 == (((v / 0x100) / 0x100) / 0x100) / 0x100) by (bit_vector);
    assert(v / 0x100_0000_0000 == ((((v / 0x100) / 0x100) / 0x100) / 0x100) / 0x100)
        by (bit_vector);
    assert(v / 0x1_0000_0000_0000 == (((((v / 0x100) / 0x100) / 0x100) / 0x100) / 0x100) / 0x100)
        by (bit_vector);
    assert(v / 0x100_0000_0000_0000 == ((((((v / 0x100) / 0x100) / 0x100) / 0x100) / 0x100)
        / 0x100) / 0x100) by (bit_vector);
    assert(v / 0x100_0000_0000_0000 < 0x100) by (bit_vector);
    assert(v == v % 0x100 + 0x100 * q1);
    assert(q1 == q1 % 0x100 + 0x100 * q2);
    assert(q2 == q2 % 0x100 + 0x100 * q3);
    assert(q3 == q3 % 0x100 + 0x100 * q4);
    assert(q4 == q4 % 0x100 + 0x100 * q5);
    assert(q5 == q5 % 0x100 + 0x100 * q6);
    assert(q6 == q6 % 0x100 + 0x100 * q7);
    assert(q7 == q7 % 0x100);
}

/// Appends the eight little-endian bytes of `v` to `dst`.
pub fn put_fixed64(dst: &mut Vec<u8>, v: u64)
    ensures
        final(dst)@ == old(dst)@ + le_bytes(v),
{
    dst.push((v % 0x100) as u8);
    dst.push(((v / 0x100) % 0x100) as u8);
    dst.push(((v / 0x1_0000) % 0x100) as u8);
    dst.push(((v / 0x100_0000) % 0x100) as u8);
    dst.push(((v / 0x1_0000_0000) % 0x100) as u8);
    dst.push(((v / 0x100_0000_0000) % 0x100) as u8);
    dst.push(((v / 0x1_0000_0000_0000) % 0x100) as u8);
    dst.push(((v / 0x100_0000_0000_0000) % 0x100) as u8);
    assert(dst@ =~= old(dst)@ + le_bytes(v));
}

/// Reads the eight little-endian bytes that start at `off`.
pub fn decode_fixed64(src: &[u8], off: usize) -> (r: u64)
    requires
        off + 8 <= src.len(),
    ensures
        r == le_u64(src@.subrange(off as int, off + 8)),
{
    let b0: u64 = src[off] as u64;
    let b1: u64 = src[off + 1] as u64;
    let b2: u64 = src[off + 2] as u64;
    let b3: u64 = src[off + 3] as u64;
    let b4: u64 = src[off + 4] as u64;
    let b5: u64 = src[off + 5] as u64;
    let b6: u64 = src[off + 6] as u64;
    let b7: u64 = src[off + 7] as u64;
    b0 + 0x100 * b1 + 0x1_0000 * b2 + 0x100_0000 * b3 + 0x1_0000_0000 * b4 + 0x100_0000_0000 * b5
        + 0x1_0000_0000_0000 * b6 + 0x100_0000_0000_0000 * b7
}

/// Sequence number and kind packed into one number: the sequence in the upper
/// 56 bits, the kind in the lowest byte.
pub open spec fn packed_tag(seq: u64, t: ValueType) -> int {
    seq * 256 + t.tag()
}

/// Packs a sequence number and a kind into one number.
pub fn pack_sequence_and_type(seq: u64, t: ValueType) -> (r: u64)
    requires
        seq <= MAX_SEQUENCE_NUMBER,
    ensures
        r == packed_tag(seq, t),
{
    seq * 256 + (t.to_u8() as u64)
}

/// The user key in front of an internal key; empty where the key is too short
/// to hold the eight trailing bytes.
pub open spec fn user_key_of(ikey: Seq<u8>) -> Seq<u8> {
    if ikey.len() >= 8 {
        ikey.subrange(0, ikey.len() - 8)
    } else {
        Seq::empty()
    }
}

/// The packed sequence and kind behind an internal key; 0 where the key is too
/// short.
pub open spec fn packed_of(ikey: Seq<u8>) -> int {
    if ikey.len() >= 8 {
        le_u64(ikey.subrange(ikey.len() - 8, ikey.len() as int))
    } else {
        0
    }
}

/// Whether an internal key parses: it holds the eight trailing bytes, and the
/// kind byte is one of the two known kinds.
pub open spec fn parses(ikey: Seq<u8>) -> bool {
    ikey.len() >= 8 && packed_of(ikey) % 256 <= 1
}

/// The sequence number of an internal key; 0 where it does not parse.
pub open spec fn sequence_of(ikey: Seq<u8>) -> int {
    if parses(ikey) {
        packed_of(ikey) / 256
    } else {
        0
    }
}

/// The kind of an internal key; a deletion where it does not parse.
pub open spec fn kind_of(ikey: Seq<u8>) -> ValueType {
    if parses(ikey) && packed_of(ikey) % 256 == 1 {
        ValueType::TypeValue
    } else {
        ValueType::TypeDeletion
    }
}

/// The internal key for a user key, a sequence number and a kind.
pub open spec fn internal_key_of(ukey: Seq<u8>, seq: u64, t: ValueType) -> Seq<u8> {
    ukey + le_bytes(packed_tag(seq, t) as u64)
}

/// Builds the internal key `user_key ‖ packed(sequence, kind)`.
pub fn make_internal_key(ukey: &[u8], seq: u64, t: ValueType) -> (r: Vec<u8>)
    requires
        seq <= MAX_SEQUENCE_NUMBER,
    ensures
        r@ == internal_key_of(ukey@, seq, t),
{
    let mut out = copy_bytes(ukey);
    put_fixed64(&mut out, pack_sequence_and_type(seq, t));
    out
}

/// Splits an internal key into kind, sequence number and the length of the
/// user key in front. A key that does not parse gives sequence 0.
pub fn parse_internal_key(ikey: &[u8]) -> (r: (ValueType, u64, usize))
    ensures
        r.0 == kind_of(ikey@),
        r.1 == sequence_of(ikey@),
        r.2 == user_key_of(ikey@).len(),
        parses(ikey@) ==> r.2 == ikey@.len() - 8,
        r.1 <= MAX_SEQUENCE_NUMBER,
{
    if ikey.len() < 8 {
        return (ValueType::TypeDeletion, 0, 0);
    }
    let n: usize = ikey.len() - 8;
    let packed: u64 = decode_fixed64(ikey, n);
    let tag: u64 = packed % 256;
    if tag > 1 {
        return (ValueType::TypeDeletion, 0, n);
    }
    let t = if tag == 1 {
        ValueType::TypeValue
    } else {
        ValueType::TypeDeletion
    };
    (t, packed / 256, n)
}

/// The user key in front of an internal key.
pub fn extract_user_key(ikey: &[u8]) -> (r: &[u8])
    ensures
        r@ == user_key_of(ikey@),
{
    if ikey.len() < 8 {
        vstd::slice::slice_subrange(ikey, 0, 0)
    } else {
        vstd::slice::slice_subrange(ikey, 0, ikey.len() - 8)
    }
}

/// What was put into an internal key is what parsing it gives back.
pub proof fn lemma_internal_key_roundtrip(ukey: Seq<u8>, seq: u64, t: ValueType)
    requires
        seq <= MAX_SEQUENCE_NUMBER,
    ensures
        parses(internal_key_of(ukey, seq, t)),
        user_key_of(internal_key_of(ukey, seq, t)) == ukey,
        sequence_of(internal_key_of(ukey, seq, t)) == seq,
        kind_of(internal_key_of(ukey, seq, t)) == t,
{
    let p = packed_tag(seq, t) as u64;
    let k = internal_key_of(ukey, seq, t);
    lemma_le_roundtrip(p);
    assert(k.subrange(0, k.len() - 8) =~= ukey);
    assert(k.subrange(k.len() - 8, k.len() as int) =~= le_bytes(p));
}

/// Order of internal keys: by user key ascending, then by the packed sequence
/// and kind descending, so that the newest entry of a user key comes first.
pub open spec fn internal_lt(a: Seq<u8>, b: Seq<u8>) -> bool {
    lex_lt(user_key_of(a), user_key_of(b)) || (user_key_of(a) == user_key_of(b) && packed_of(a)
        > packed_of(b))
}

/// `a` sorts before `b` in internal-key order, or ties with it.
pub open spec fn internal_le(a: Seq<u8>, b: Seq<u8>) -> bool {
    !internal_lt(b, a)
}

/// Internal-key order is total and transitive: of three keys, where the
/// first does not sort behind the second nor the second behind the third,
/// the first does not sort behind the third; and no key sorts before itself.
pub proof fn lemma_internal_order(a: Seq<u8>, b: Seq<u8>, c: Seq<u8>)
    ensures
        !internal_lt(a, a),
        internal_le(a, b) && internal_le(b, c) ==> internal_le(a, c),
        internal_lt(a, b) && internal_le(b, c) ==> internal_lt(a, c),
        internal_le(a, b) && internal_lt(b, c) ==> internal_lt(a, c),
        internal_lt(a, b) ==> internal_le(a, b),
        internal_lt(a, b) || internal_le(b, a),
{
    let (ua, ub, uc) = (user_key_of(a), user_key_of(b), user_key_of(c));
    lemma_lex_trichotomy(ua, ua);
    lemma_lex_trichotomy(ua, ub);
    lemma_lex_trichotomy(ub, uc);
    lemma_lex_trichotomy(ua, uc);
    lemma_lex_transitive(ua, ub, uc);
    lemma_lex_transitive(uc, ua, ub);
    lemma_lex_transitive(ub, uc, ua);
    lemma_lex_transitive(uc, ub, ua);
}

fn packed_at_end(ikey: &[u8]) -> (r: u64)
    ensures
        r == packed_of(ikey@),
{
    if ikey.len() < 8 {
        0
    } else {
        decode_fixed64(ikey, ikey.len() - 8)
    }
}

/// Whether `a` sorts strictly before `b` in internal-key order.
pub fn internal_key_lt(a: &[u8], b: &[u8]) -> (r: bool)
    ensures
        r == internal_lt(a@, b@),
{
    let ua = extract_user_key(a);
    let ub = extract_user_key(b);
    if bytes_lt(ua, ub) {
        true
    } else if bytes_eq(ua, ub) {
        packed_at_end(a) > packed_at_end(b)
    } else {
        false
    }
}

/// A key to seek with: a user key at a sequence number, with the kind that
/// sorts first among the entries of that sequence.
pub struct LookupKey {
    key: Vec<u8>,
}

impl LookupKey {
    /// The internal key that this lookup key holds.
    pub closed spec fn view(&self) -> Seq<u8> {
        self.key@
    }

    /// The lookup key for `user_key` at sequence `seq`.
    pub fn new(user_key: &[u8], seq: u64) -> (r: LookupKey)
        requires
            seq <= MAX_SEQUENCE_NUMBER,
        ensures
            r@ == internal_key_of(user_key@, seq, ValueType::TypeValue),
    {
        LookupKey { key: make_internal_key(user_key, seq, ValueType::TypeValue) }
    }

    /// The internal key to seek with.
    pub fn internal_key(&self) -> (r: &[u8])
        ensures
            r@ == self@,
    {
        self.key.as_slice()
    }

    /// The user key that is looked up.
    pub fn user_key(&self) -> (r: &[u8])
        ensures
            r@ == user_key_of(self@),
    {
        extract_user_key(self.key.as_slice())
    }
}

} // verus!
