//! Write batches: the entries that one write adds, and the record that
//! stands for them in the write-ahead log.

use vstd::prelude::*;
use crate::db_impl::le_u32;
use crate::key_types::{copy_bytes, le_bytes, le_u64, put_fixed64};
use crate::types::ValueType;
use crate::version_edit::{
    at, dec_string, enc_string, get_string, lemma_split, lemma_string_at, lemma_sub_at,
    put_string,
};

verus! {

/// One entry of a batch: a value put under a key, or the key deleted.
#[derive(Clone, Debug, PartialEq, Eq)]
pub struct BatchEntry {
    /// Whether the entry puts a value or deletes the key.
    pub kind: ValueType,
    /// The user key.
    pub key: Vec<u8>,
    /// The value; empty for a deletion.
    pub value: Vec<u8>,
}

/// An entry of a batch, as plain values.
pub ghost struct EntryView {
    pub kind: ValueType,
    pub key: Seq<u8>,
    pub value: Seq<u8>,
}

impl View for BatchEntry {
    type V = EntryView;

    open spec fn view(&self) -> EntryView {
        EntryView { kind: self.kind, key: self.key@, value: self.value@ }
    }
}

/// The entries that one write adds, in order.
#[derive(Clone, Debug, PartialEq, Eq)]
pub struct WriteBatch {
    /// The entries.
    pub entries: Vec<BatchEntry>,
}

impl View for WriteBatch {
    type V = Seq<EntryView>;

    open spec fn view(&self) -> Seq<EntryView> {
        Seq::new(self.entries@.len(), |i: int| self.entries@[i]@)
    }
}

/// The four bytes that stand for `v`, least significant byte first.
pub open spec fn le_bytes32(v: u32) -> Seq<u8> {
    seq![
        (v % 0x100) as u8,
        ((v / 0x100) % 0x100) as u8,
        ((v / 0x1_0000) % 0x100) as u8,
        ((v / 0x100_0000) % 0x100) as u8,
    ]
}

/// One entry on the wire: the kind byte, the key, and for a value the value.
pub open spec fn enc_entry(e: EntryView) -> Seq<u8> {
    match e.kind {
        ValueType::TypeValue => seq![1u8] + enc_string(e.key) + enc_string(e.value),
        ValueType::TypeDeletion => seq![0u8] + enc_string(e.key),
    }
}

/// The first `n` entries on the wire, one behind the other.
pub open spec fn enc_entries(entries: Seq<EntryView>, n: int) -> Seq<u8>
    decreases n,
{
    if n <= 0 {
        Seq::empty()
    } else {
        enc_entries(entries, n - 1) + enc_entry(entries[n - 1])
    }
}

/// The record for a batch whose first entry has the sequence number `seq`:
/// the sequence number in eight bytes, the number of entries in four, then
/// the entries.
pub open spec fn enc_batch(seq: u64, entries: Seq<EntryView>) -> Seq<u8> {
    le_bytes(seq) + le_bytes32(entries.len() as u32) + enc_entries(entries, entries.len() as int)
}

/// The entry at `pos`, and the place behind it. A deletion is read without a
/// value. An unknown kind, or an entry that is cut short, gives nothing.
pub open spec fn dec_entry(b: Seq<u8>, pos: int) -> Option<(EntryView, int)> {
    if pos < 0 || pos >= b.len() {
        None
    } else if b[pos] == 1 {
        match dec_string(b, pos + 1) {
            None => None,
            Some((key, p)) => match dec_string(b, p) {
                None => None,
                Some((value, q)) => Some((EntryView { kind: ValueType::TypeValue, key, value }, q)),
            },
        }
    } else if b[pos] == 0 {
        match dec_string(b, pos + 1) {
            None => None,
            Some((key, p)) => Some(
                (EntryView { kind: ValueType::TypeDeletion, key, value: Seq::empty() }, p),
            ),
        }
    } else {
        None
    }
}

/// `acc` with every entry from `pos` on behind it.
pub open spec fn dec_entries(b: Seq<u8>, pos: int, acc: Seq<EntryView>) -> Option<Seq<EntryView>>
    decreases b.len() - pos,
{
    if pos >= b.len() {
        Some(acc)
    } else {
        match dec_entry(b, pos) {
            None => None,
            Some((e, p)) => if pos < p <= b.len() {
                dec_entries(b, p, acc.push(e))
            } else {
                None
            },
        }
    }
}

/// What a record of the write-ahead log stands for: the sequence number of
/// the first entry, and the entries. A record shorter than its head, with an
/// entry that cannot be read, or whose count is not the number of its
/// entries stands for nothing.
pub open spec fn dec_batch(b: Seq<u8>) -> Option<(u64, Seq<EntryView>)> {
    if b.len() < 12 {
        None
    } else {
        match dec_entries(b, 12, Seq::empty()) {
            None => None,
            Some(entries) => if entries.len() == le_u32(b.subrange(8, 12)) {
                Some((le_u64(b.subrange(0, 8)) as u64, entries))
            } else {
                None
            },
        }
    }
}

fn get_entry(b: &[u8], pos: usize) -> (r: Option<(BatchEntry, usize)>)
    ensures
        r.is_some() == dec_entry(b@, pos as int).is_some(),
        r.is_some() ==> r.unwrap().0@ == dec_entry(b@, pos as int).unwrap().0 && r.unwrap().1
            == dec_entry(b@, pos as int).unwrap().1 && pos < r.unwrap().1 <= b@.len(),
{
    if pos >= b.len() {
        return None;
    }
    let kind = b[pos];
    if kind == 1 {
        let (key, p) = match get_string(b, pos + 1) {
            None => {
                return None;
            },
            Some(x) => x,
        };
        let (value, q) = match get_string(b, p) {
            None => {
                return None;
            },
            Some(x) => x,
        };
        Some((BatchEntry { kind: ValueType::TypeValue, key, value }, q))
    } else if kind == 0 {
        let (key, p) = match get_string(b, pos + 1) {
            None => {
                return None;
            },
            Some(x) => x,
        };
        Some((BatchEntry { kind: ValueType::TypeDeletion, key, value: Vec::new() }, p))
    } else {
        None
    }
}

impl WriteBatch {
    /// A batch without entries.
    pub fn new() -> (r: WriteBatch)
        ensures
            r@ == Seq::<EntryView>::empty(),
    {
        let r = WriteBatch { entries: Vec::new() };
        assert(r@ =~= Seq::<EntryView>::empty());
        r
    }

    /// Adds an entry that puts `v` under `k`.
    pub fn put(&mut self, k: &[u8], v: &[u8])
        ensures
            final(self)@ == old(self)@.push(
                EntryView { kind: ValueType::TypeValue, key: k@, value: v@ },
            ),
    {
        self.entries.push(
            BatchEntry { kind: ValueType::TypeValue, key: copy_bytes(k), value: copy_bytes(v) },
        );
        assert(self@ =~= old(self)@.push(
            EntryView { kind: ValueType::TypeValue, key: k@, value: v@ },
        ));
    }

    /// Adds an entry that deletes `k`.
    pub fn delete(&mut self, k: &[u8])
        ensures
            final(self)@ == old(self)@.push(
                EntryView { kind: ValueType::TypeDeletion, key: k@, value: Seq::empty() },
            ),
    {
        self.entries.push(
            BatchEntry { kind: ValueType::TypeDeletion, key: copy_bytes(k), value: Vec::new() },
        );
        assert(self@ =~= old(self)@.push(
            EntryView { kind: ValueType::TypeDeletion, key: k@, value: Seq::empty() },
        ));
    }

    /// Number of entries.
    pub fn count(&self) -> (r: usize)
        ensures
            r == self@.len(),
    {
        self.entries.len()
    }

    /// Takes every entry out.
    pub fn clear(&mut self)
        ensures
            final(self)@ == Seq::<EntryView>::empty(),
    {
        self.entries.clear();
        assert(self@ =~= Seq::<EntryView>::empty());
    }

    /// The record for this batch, its first entry at the sequence number
    /// `seq`.
    pub fn encode(&self, seq: u64) -> (r: Vec<u8>)
        requires
            self@.len() <= u32::MAX,
        ensures
            r@ == enc_batch(seq, self@),
    {
        let mut dst: Vec<u8> = Vec::new();
        put_fixed64(&mut dst, seq);
        let n: u32 = self.entries.len() as u32;
        dst.push((n % 0x100) as u8);
        dst.push(((n / 0x100) % 0x100) as u8);
        dst.push(((n / 0x1_0000) % 0x100) as u8);
        dst.push(((n / 0x100_0000) % 0x100) as u8);
        let ghost head = dst@;
        assert(head =~= le_bytes(seq) + le_bytes32(self@.len() as u32));
        let mut i: usize = 0;
        while i < self.entries.len()
            invariant
                i <= self.entries@.len(),
                dst@ == head + enc_entries(self@, i as int),
            decreases self.entries.len() - i,
        {
            let ghost before = dst@;
            let e = &self.entries[i];
            match e.kind {
                ValueType::TypeValue => {
                    dst.push(1);
                    put_string(&mut dst, e.key.as_slice());
                    put_string(&mut dst, e.value.as_slice());
                },
                ValueType::TypeDeletion => {
                    dst.push(0);
                    put_string(&mut dst, e.key.as_slice());
                },
            }
            assert(dst@ =~= before + enc_entry(self@[i as int]));
            i += 1;
            assert(dst@ =~= head + enc_entries(self@, i as int));
        }
        dst
    }

    /// Reads a record of the write-ahead log: the sequence number of the
    /// first entry, and the batch.
    pub fn decode(record: &[u8]) -> (r: Option<(u64, WriteBatch)>)
        ensures
            r.is_some() == dec_batch(record@).is_some(),
            r.is_some() ==> r.unwrap().0 == dec_batch(record@).unwrap().0 && r.unwrap().1@
                == dec_batch(record@).unwrap().1,
    {
        let (seq, count) = match crate::db_impl::batch_header(record) {
            None => {
                return None;
            },
            Some(h) => h,
        };
        let mut batch = WriteBatch::new();
        let mut pos: usize = 12;
        while pos < record.len()
            invariant
                12 <= pos <= record@.len(),
                dec_entries(record@, 12, Seq::empty()) == dec_entries(record@, pos as int, batch@),
            decreases record.len() - pos,
        {
            match get_entry(record, pos) {
                None => {
                    return None;
                },
                Some((e, next)) => {
                    let ghost before = batch@;
                    let ghost ev = e@;
                    batch.entries.push(e);
                    assert(batch@ =~= before.push(ev));
                    pos = next;
                },
            }
        }
        if batch.entries.len() as u64 != count as u64 {
            return None;
        }
        Some((seq, batch))
    }
}

/// Whether an entry can be written: the lengths of its key and value fit in
/// 64 bits, and a deletion has no value.
pub open spec fn entry_encodable(e: EntryView) -> bool {
    &&& e.key.len() <= u64::MAX
    &&& e.value.len() <= u64::MAX
    &&& e.kind == ValueType::TypeDeletion ==> e.value == Seq::<u8>::empty()
}

/// Reading an entry that was written gives the entry back.
pub proof fn lemma_entry_at(b: Seq<u8>, pos: int, e: EntryView)
    requires
        at(b, pos, enc_entry(e)),
        entry_encodable(e),
    ensures
        enc_entry(e).len() > 0,
        dec_entry(b, pos) == Some((e, pos + enc_entry(e).len())),
{
    match e.kind {
        ValueType::TypeValue => {
            lemma_split(b, pos, seq![1u8] + enc_string(e.key), enc_string(e.value));
            lemma_split(b, pos, seq![1u8], enc_string(e.key));
            assert(b[pos] == b.subrange(pos, pos + 1)[0]);
            lemma_string_at(b, pos + 1, e.key);
            lemma_string_at(b, pos + 1 + enc_string(e.key).len(), e.value);
        },
        ValueType::TypeDeletion => {
            lemma_split(b, pos, seq![0u8], enc_string(e.key));
            assert(b[pos] == b.subrange(pos, pos + 1)[0]);
            lemma_string_at(b, pos + 1, e.key);
        },
    }
}

/// The encoding of the first `n` entries begins the encoding of the first
/// `m`.
pub proof fn lemma_entries_prefix(list: Seq<EntryView>, n: int, m: int)
    requires
        0 <= n <= m <= list.len(),
    ensures
        enc_entries(list, n).len() <= enc_entries(list, m).len(),
        enc_entries(list, m).subrange(0, enc_entries(list, n).len() as int) == enc_entries(list, n),
    decreases m - n,
{
    if n == m {
        assert(enc_entries(list, m).subrange(0, enc_entries(list, n).len() as int)
            =~= enc_entries(list, n));
    } else {
        lemma_entries_prefix(list, n, m - 1);
        assert(enc_entries(list, m).subrange(0, enc_entries(list, n).len() as int)
            =~= enc_entries(list, m - 1).subrange(0, enc_entries(list, n).len() as int));
    }
}

/// Reading the encoded entries one by one gives each of them back.
pub proof fn lemma_entries_chain(b: Seq<u8>, pos0: int, list: Seq<EntryView>, n: int)
    requires
        0 <= n <= list.len(),
        at(b, pos0, enc_entries(list, list.len() as int)),
        forall|k: int| 0 <= k < list.len() ==> entry_encodable(#[trigger] list[k]),
    ensures
        enc_entries(list, n).len() <= enc_entries(list, list.len() as int).len(),
        dec_entries(b, pos0, Seq::empty()) == dec_entries(
            b,
            pos0 + enc_entries(list, n).len(),
            list.subrange(0, n),
        ),
    decreases n,
{
    lemma_entries_prefix(list, n, list.len() as int);
    if n == 0 {
        assert(list.subrange(0, 0) =~= Seq::<EntryView>::empty());
    } else {
        lemma_entries_chain(b, pos0, list, n - 1);
        lemma_entries_prefix(list, n - 1, list.len() as int);
        let all = enc_entries(list, list.len() as int);
        let before = enc_entries(list, n - 1);
        let one = enc_entry(list[n - 1]);
        let q = pos0 + before.len();
        assert(all.subrange(before.len() as int, (before.len() + one.len()) as int) =~= one) by {
            assert(all.subrange(0, (before + one).len() as int) == before + one);
            assert(all.subrange(before.len() as int, (before.len() + one.len()) as int) =~= (
            before + one).subrange(before.len() as int, (before.len() + one.len()) as int));
        }
        lemma_sub_at(b, pos0, all, before.len() as int, one);
        lemma_entry_at(b, q, list[n - 1]);
        assert(list.subrange(0, n - 1).push(list[n - 1]) =~= list.subrange(0, n));
    }
}

/// Reading back the four bytes written for `v` gives `v`.
pub proof fn lemma_le32_roundtrip(v: u32)
    ensures
        le_bytes32(v).len() == 4,
        le_u32(le_bytes32(v)) == v,
{
    let q1: u32 = v / 0x100;
    let q2: u32 = q1 / 0x100;
    let q3: u32 = q2 / 0x100;
    assert(v / 0x1_0000 == (v / 0x100) / 0x100) by (bit_vector);
    assert(v / 0x100_0000 == ((v / 0x100) / 0x100) / 0x100) by (bit_vector);
    assert(v / 0x100_0000 < 0x100) by (bit_vector);
    assert(v == v % 0x100 + 0x100 * q1);
    assert(q1 == q1 % 0x100 + 0x100 * q2);
    assert(q2 == q2 % 0x100 + 0x100 * q3);
}

/// Replaying a record of the write-ahead log gives what was written: the
/// sequence number, and every entry with its kind, key and value, in order.
pub proof fn lemma_batch_roundtrip(seq: u64, entries: Seq<EntryView>)
    requires
        entries.len() <= u32::MAX,
        forall|k: int| 0 <= k < entries.len() ==> entry_encodable(#[trigger] entries[k]),
    ensures
        dec_batch(enc_batch(seq, entries)) == Some((seq, entries)),
{
    let b = enc_batch(seq, entries);
    let n = entries.len() as u32;
    let body = enc_entries(entries, entries.len() as int);
    crate::key_types::lemma_le_roundtrip(seq);
    lemma_le32_roundtrip(n);
    assert(b.subrange(0, b.len() as int) =~= b);
    lemma_split(b, 0, le_bytes(seq) + le_bytes32(n), body);
    lemma_split(b, 0, le_bytes(seq), le_bytes32(n));
    assert(b.subrange(0, 8) == le_bytes(seq));
    assert(b.subrange(8, 12) == le_bytes32(n));
    lemma_entries_chain(b, 12, entries, entries.len() as int);
    assert(entries.subrange(0, entries.len() as int) =~= entries);
    assert(12 + body.len() == b.len());
}

/// The key space after the first `n` of `entries` are applied to `m`, in
/// order: a value is put under its key, a deletion takes the key out.
pub open spec fn apply_entries(m: Map<Seq<u8>, Seq<u8>>, entries: Seq<EntryView>, n: int) -> Map<
    Seq<u8>,
    Seq<u8>,
>
    decreases n,
{
    if n <= 0 {
        m
    } else {
        let before = apply_entries(m, entries, n - 1);
        match entries[n - 1].kind {
            ValueType::TypeValue => before.insert(entries[n - 1].key, entries[n - 1].value),
            ValueType::TypeDeletion => before.remove(entries[n - 1].key),
        }
    }
}

/// The key space that the first `n` batches leave, applied in order to an
/// empty database.
pub open spec fn key_space(batches: Seq<(u64, Seq<EntryView>)>, n: int) -> Map<Seq<u8>, Seq<u8>>
    decreases n,
{
    if n <= 0 {
        Map::empty()
    } else {
        apply_entries(key_space(batches, n - 1), batches[n - 1].1, batches[n - 1].1.len() as int)
    }
}

/// The key space that replaying the first `n` records of a write-ahead log
/// leaves. A record that stands for nothing is passed over.
pub open spec fn replayed_key_space(records: Seq<Seq<u8>>, n: int) -> Map<Seq<u8>, Seq<u8>>
    decreases n,
{
    if n <= 0 {
        Map::empty()
    } else {
        match dec_batch(records[n - 1]) {
            Some((_seq, entries)) => apply_entries(
                replayed_key_space(records, n - 1),
                entries,
                entries.len() as int,
            ),
            None => replayed_key_space(records, n - 1),
        }
    }
}

/// The records that stand for the batches in the write-ahead log.
pub open spec fn records_of(batches: Seq<(u64, Seq<EntryView>)>) -> Seq<Seq<u8>> {
    Seq::new(batches.len(), |i: int| enc_batch(batches[i].0, batches[i].1))
}

/// Replaying the write-ahead log gives the key space that the writes left:
/// the records written for a list of batches, replayed in order, lead to the
/// key space that the batches themselves lead to.
pub proof fn lemma_replay_keeps_key_space(batches: Seq<(u64, Seq<EntryView>)>, n: int)
    requires
        0 <= n <= batches.len(),
        forall|i: int| 0 <= i < batches.len() ==> (#[trigger] batches[i]).1.len() <= u32::MAX,
        forall|i: int, k: int|
            0 <= i < batches.len() && 0 <= k < batches[i].1.len() ==> entry_encodable(
                #[trigger] batches[i].1[k],
            ),
    ensures
        replayed_key_space(records_of(batches), n) == key_space(batches, n),
    decreases n,
{
    if n > 0 {
        lemma_replay_keeps_key_space(batches, n - 1);
        lemma_batch_roundtrip(batches[n - 1].0, batches[n - 1].1);
    }
}

} // verus!
