//! Which entries a merge writes and which it drops, entry by entry in
//! internal-key order.

use vstd::prelude::*;
use crate::key_types::{
    bytes_eq, copy_bytes, extract_user_key, internal_le, kind_of, parse_internal_key, parses,
    packed_of, sequence_of, user_key_of,
};
use crate::types::{ValueType, MAX_SEQUENCE_NUMBER};

verus! {

/// What becomes of one input entry.
#[derive(Clone, Copy, Debug, PartialEq, Eq, Structural)]
pub enum Verdict {
    /// The key does not parse; the entry is passed over.
    Skip,
    /// The entry is obsolete and left out of the output.
    Drop,
    /// The entry goes to the output.
    Write,
}

/// What the rules remember between entries, as plain values.
pub ghost struct Track {
    /// Whether a user key was seen yet.
    pub have_ukey: bool,
    /// The user key of the entries under way.
    pub current_ukey: Seq<u8>,
    /// Sequence number of the entry of that user key written last.
    pub last_seq: u64,
}

/// The memory before the first entry.
pub open spec fn track_start() -> Track {
    Track { have_ukey: false, current_ukey: Seq::empty(), last_seq: MAX_SEQUENCE_NUMBER }
}

/// The memory as the rules see it at `ikey`: started anew where `ikey` opens
/// another user key.
pub open spec fn track_at(t: Track, ikey: Seq<u8>) -> Track {
    if !t.have_ukey || user_key_of(ikey) != t.current_ukey {
        Track { have_ukey: true, current_ukey: user_key_of(ikey), last_seq: MAX_SEQUENCE_NUMBER }
    } else {
        t
    }
}

/// The verdict on the entry `ikey`. `smallest_seq` is the sequence number at
/// or below which obsolete entries may go; `base` tells whether no deeper
/// level can hold the entry's user key.
///
/// An entry is dropped where an entry of its user key at or below
/// `smallest_seq` was written before it; a tombstone at or below
/// `smallest_seq` is dropped where `base` holds.
pub open spec fn verdict(t: Track, ikey: Seq<u8>, smallest_seq: u64, base: bool) -> Verdict {
    if sequence_of(ikey) == 0 {
        Verdict::Skip
    } else if track_at(t, ikey).last_seq <= smallest_seq {
        Verdict::Drop
    } else if kind_of(ikey) == ValueType::TypeDeletion && sequence_of(ikey) <= smallest_seq
        && base {
        Verdict::Drop
    } else {
        Verdict::Write
    }
}

/// The memory after the entry `ikey`.
pub open spec fn track_next(t: Track, ikey: Seq<u8>, smallest_seq: u64, base: bool) -> Track {
    match verdict(t, ikey, smallest_seq, base) {
        Verdict::Skip => Track { last_seq: MAX_SEQUENCE_NUMBER, ..t },
        Verdict::Drop => track_at(t, ikey),
        Verdict::Write => Track { last_seq: sequence_of(ikey) as u64, ..track_at(t, ikey) },
    }
}

/// The memory after the first `n` of `keys`. `base` holds the user keys that
/// no deeper level can hold.
pub open spec fn track_after(
    keys: Seq<Seq<u8>>,
    n: int,
    smallest_seq: u64,
    base: Set<Seq<u8>>,
) -> Track
    decreases n,
{
    if n <= 0 {
        track_start()
    } else {
        track_next(
            track_after(keys, n - 1, smallest_seq, base),
            keys[n - 1],
            smallest_seq,
            base.contains(user_key_of(keys[n - 1])),
        )
    }
}

/// The verdict on entry `i` of `keys` when the entries are taken in order.
pub open spec fn verdict_at(
    keys: Seq<Seq<u8>>,
    i: int,
    smallest_seq: u64,
    base: Set<Seq<u8>>,
) -> Verdict {
    verdict(
        track_after(keys, i, smallest_seq, base),
        keys[i],
        smallest_seq,
        base.contains(user_key_of(keys[i])),
    )
}

/// The keys come in internal-key order: none sorts before an earlier one.
pub open spec fn in_internal_order(keys: Seq<Seq<u8>>) -> bool {
    forall|j: int, k: int| 0 <= j < k < keys.len() ==> internal_le(keys[j], keys[k])
}

/// Entry `i` is the youngest of its user key at or below `smallest_seq`: it
/// is at or below it, and no earlier entry of the user key is.
pub open spec fn youngest_at_or_below(keys: Seq<Seq<u8>>, i: int, smallest_seq: u64) -> bool {
    &&& sequence_of(keys[i]) <= smallest_seq
    &&& forall|j: int|
        0 <= j < i && user_key_of(#[trigger] keys[j]) == user_key_of(keys[i]) ==> sequence_of(
            keys[j],
        ) > smallest_seq
}

/// Where the sequence number remembered is at or below `smallest_seq`, it is
/// that of an earlier entry of the user key under way.
pub proof fn lemma_track_witness(
    keys: Seq<Seq<u8>>,
    n: int,
    smallest_seq: u64,
    base: Set<Seq<u8>>,
)
    requires
        0 <= n <= keys.len(),
        smallest_seq < MAX_SEQUENCE_NUMBER,
    ensures
        ({
            let t = track_after(keys, n, smallest_seq, base);
            t.last_seq <= smallest_seq ==> t.have_ukey && exists|j: int|
                0 <= j < n && user_key_of(#[trigger] keys[j]) == t.current_ukey && sequence_of(
                    keys[j],
                ) == t.last_seq && parses(keys[j])
        }),
    decreases n,
{
    if n > 0 {
        lemma_track_witness(keys, n - 1, smallest_seq, base);
        let p = track_after(keys, n - 1, smallest_seq, base);
        let k = keys[n - 1];
        let b = base.contains(user_key_of(k));
        let t = track_after(keys, n, smallest_seq, base);
        assert(t == track_next(p, k, smallest_seq, b));
        if t.last_seq <= smallest_seq {
            match verdict(p, k, smallest_seq, b) {
                Verdict::Skip => {},
                Verdict::Drop => {
                    assert(t == track_at(p, k));
                    assert(t == p);
                    let j = choose|j: int|
                        0 <= j < n - 1 && user_key_of(#[trigger] keys[j]) == p.current_ukey
                            && sequence_of(keys[j]) == p.last_seq && parses(keys[j]);
                    assert(user_key_of(keys[j]) == t.current_ukey);
                },
                Verdict::Write => {
                    assert(user_key_of(keys[n - 1]) == t.current_ukey);
                },
            }
        }
    }
}

/// What a merge keeps of each user key. Of entries in internal-key order,
/// taken in order:
/// every entry above `smallest_seq` is written;
/// the youngest entry of a user key at or below `smallest_seq` is written if
/// and only if it is a value, or a tombstone whose user key a deeper level can
/// still hold.
pub proof fn lemma_merge_keeps_youngest(
    keys: Seq<Seq<u8>>,
    i: int,
    smallest_seq: u64,
    base: Set<Seq<u8>>,
)
    requires
        0 <= i < keys.len(),
        smallest_seq < MAX_SEQUENCE_NUMBER,
        in_internal_order(keys),
        sequence_of(keys[i]) != 0,
    ensures
        sequence_of(keys[i]) > smallest_seq ==> verdict_at(keys, i, smallest_seq, base)
            == Verdict::Write,
        youngest_at_or_below(keys, i, smallest_seq) ==> (verdict_at(keys, i, smallest_seq, base)
            == Verdict::Write <==> (kind_of(keys[i]) == ValueType::TypeValue || !base.contains(
            user_key_of(keys[i]),
        ))),
{
    lemma_track_witness(keys, i, smallest_seq, base);
    let p = track_after(keys, i, smallest_seq, base);
    let at = track_at(p, keys[i]);
    if at.last_seq <= smallest_seq {
        assert(at == p);
        let j = choose|j: int|
            0 <= j < i && user_key_of(#[trigger] keys[j]) == p.current_ukey && sequence_of(
                keys[j],
            ) == p.last_seq && parses(keys[j]);
        assert(user_key_of(keys[j]) == user_key_of(keys[i]));
        assert(internal_le(keys[j], keys[i]));
        assert(packed_of(keys[i]) <= packed_of(keys[j]));
        assert(sequence_of(keys[i]) <= sequence_of(keys[j]));
    }
}

/// Once an entry of a user key at or below `smallest_seq` is written, every
/// later entry of that user key is dropped.
pub proof fn lemma_merge_drops_older(
    keys: Seq<Seq<u8>>,
    i: int,
    k: int,
    smallest_seq: u64,
    base: Set<Seq<u8>>,
)
    requires
        0 <= i < k < keys.len(),
        smallest_seq < MAX_SEQUENCE_NUMBER,
        in_internal_order(keys),
        forall|j: int| i <= j <= k ==> sequence_of(#[trigger] keys[j]) != 0,
        user_key_of(keys[i]) == user_key_of(keys[k]),
        sequence_of(keys[i]) <= smallest_seq,
        verdict_at(keys, i, smallest_seq, base) == Verdict::Write,
    ensures
        verdict_at(keys, k, smallest_seq, base) == Verdict::Drop,
{
    lemma_same_key_between(keys, i, k);
    lemma_track_stays(keys, i, k, smallest_seq, base);
}

/// In internal-key order the entries of one user key stand side by side.
pub proof fn lemma_same_key_between(keys: Seq<Seq<u8>>, i: int, k: int)
    requires
        0 <= i < k < keys.len(),
        in_internal_order(keys),
        user_key_of(keys[i]) == user_key_of(keys[k]),
    ensures
        forall|j: int| i <= j <= k ==> user_key_of(#[trigger] keys[j]) == user_key_of(keys[i]),
{
    assert forall|j: int| i <= j <= k implies user_key_of(#[trigger] keys[j]) == user_key_of(
        keys[i],
    ) by {
        if i < j < k {
            assert(internal_le(keys[i], keys[j]));
            assert(internal_le(keys[j], keys[k]));
            crate::key_types::lemma_lex_trichotomy(user_key_of(keys[i]), user_key_of(keys[j]));
        }
    }
}

/// After a written entry at or below `smallest_seq`, the memory stays as it is
/// while the user key stays the same.
proof fn lemma_track_stays(
    keys: Seq<Seq<u8>>,
    i: int,
    k: int,
    smallest_seq: u64,
    base: Set<Seq<u8>>,
)
    requires
        0 <= i < k < keys.len(),
        smallest_seq < MAX_SEQUENCE_NUMBER,
        forall|j: int| i <= j <= k ==> sequence_of(#[trigger] keys[j]) != 0,
        forall|j: int| i <= j <= k ==> user_key_of(#[trigger] keys[j]) == user_key_of(keys[i]),
        sequence_of(keys[i]) <= smallest_seq,
        verdict_at(keys, i, smallest_seq, base) == Verdict::Write,
    ensures
        track_after(keys, k, smallest_seq, base) == (Track {
            have_ukey: true,
            current_ukey: user_key_of(keys[i]),
            last_seq: sequence_of(keys[i]) as u64,
        }),
        verdict_at(keys, k, smallest_seq, base) == Verdict::Drop,
    decreases k - i,
{
    if k == i + 1 {
        assert(track_after(keys, k, smallest_seq, base) == track_next(
            track_after(keys, i, smallest_seq, base),
            keys[i],
            smallest_seq,
            base.contains(user_key_of(keys[i])),
        ));
    } else {
        lemma_track_stays(keys, i, k - 1, smallest_seq, base);
        assert(track_after(keys, k, smallest_seq, base) == track_next(
            track_after(keys, k - 1, smallest_seq, base),
            keys[k - 1],
            smallest_seq,
            base.contains(user_key_of(keys[k - 1])),
        ));
    }
}

/// Whether entry `i` is what a read of `ukey` at the snapshot `s` sees among
/// the entries whose places are in `among`: the first entry of the user key
/// at or below `s`.
pub open spec fn read_sees(keys: Seq<Seq<u8>>, among: Set<int>, ukey: Seq<u8>, s: u64, i: int) -> bool {
    &&& 0 <= i < keys.len()
    &&& among.contains(i)
    &&& user_key_of(keys[i]) == ukey
    &&& sequence_of(keys[i]) <= s
    &&& forall|j: int|
        0 <= j < i && among.contains(j) && user_key_of(#[trigger] keys[j]) == ukey ==> sequence_of(
            keys[j],
        ) > s
}

/// The places of the entries that a merge writes.
pub open spec fn written(keys: Seq<Seq<u8>>, smallest_seq: u64, base: Set<Seq<u8>>) -> Set<int> {
    Set::new(|i: int| verdict_at(keys, i, smallest_seq, base) == Verdict::Write)
}

/// Before an entry of a user key at or below `smallest_seq` stands the
/// youngest such entry, or the entry is it.
pub proof fn lemma_first_at_or_below(keys: Seq<Seq<u8>>, j: int, smallest_seq: u64) -> (y: int)
    requires
        0 <= j < keys.len(),
        sequence_of(keys[j]) <= smallest_seq,
    ensures
        0 <= y <= j,
        user_key_of(keys[y]) == user_key_of(keys[j]),
        youngest_at_or_below(keys, y, smallest_seq),
    decreases j,
{
    if exists|e: int|
        0 <= e < j && user_key_of(#[trigger] keys[e]) == user_key_of(keys[j]) && sequence_of(
            keys[e],
        ) <= smallest_seq {
        let e = choose|e: int|
            0 <= e < j && user_key_of(#[trigger] keys[e]) == user_key_of(keys[j]) && sequence_of(
                keys[e],
            ) <= smallest_seq;
        lemma_first_at_or_below(keys, e, smallest_seq)
    } else {
        j
    }
}

/// A merge does not change what a read sees. For a snapshot `s` that is not
/// older than `smallest_seq` and a user key `ukey`, among entries in
/// internal-key order:
/// what a read sees among the entries written, it sees among all entries;
/// and what it sees among all entries, it sees among those written, unless
/// that is a tombstone at or below `smallest_seq` of a key that no deeper
/// level can hold, in which case it sees no entry among those written, as
/// the key is deleted.
///
/// This holds where no entry of `ukey` follows a tombstone of `ukey` at or
/// below `smallest_seq` while no deeper level can hold `ukey`: the merge
/// drops such a tombstone and remembers nothing of it.
pub proof fn lemma_merge_keeps_reads(
    keys: Seq<Seq<u8>>,
    smallest_seq: u64,
    base: Set<Seq<u8>>,
    ukey: Seq<u8>,
    s: u64,
    i: int,
)
    requires
        smallest_seq < MAX_SEQUENCE_NUMBER,
        smallest_seq <= s,
        in_internal_order(keys),
        forall|j: int| 0 <= j < keys.len() ==> sequence_of(#[trigger] keys[j]) != 0,
        base.contains(ukey) ==> forall|y: int, z: int|
            0 <= y < z < keys.len() && user_key_of(#[trigger] keys[y]) == ukey && user_key_of(
                #[trigger] keys[z],
            ) == ukey ==> !(kind_of(keys[y]) == ValueType::TypeDeletion && sequence_of(keys[y])
                <= smallest_seq),
    ensures
        read_sees(keys, written(keys, smallest_seq, base), ukey, s, i) ==> read_sees(
            keys,
            Set::full(),
            ukey,
            s,
            i,
        ),
        read_sees(keys, Set::full(), ukey, s, i) ==> read_sees(
            keys,
            written(keys, smallest_seq, base),
            ukey,
            s,
            i,
        ) || (kind_of(keys[i]) == ValueType::TypeDeletion && base.contains(ukey) && sequence_of(
            keys[i],
        ) <= smallest_seq),
{
    let w = written(keys, smallest_seq, base);
    if read_sees(keys, w, ukey, s, i) {
        assert forall|j: int|
            0 <= j < i && user_key_of(#[trigger] keys[j]) == ukey implies sequence_of(keys[j])
            > s by {
            if sequence_of(keys[j]) <= s {
                lemma_merge_keeps_youngest(keys, j, smallest_seq, base);
                if sequence_of(keys[j]) > smallest_seq {
                    assert(w.contains(j));
                } else {
                    let y = lemma_first_at_or_below(keys, j, smallest_seq);
                    lemma_merge_keeps_youngest(keys, y, smallest_seq, base);
                    if verdict_at(keys, y, smallest_seq, base) == Verdict::Write {
                        assert(w.contains(y));
                    } else {
                        assert(kind_of(keys[y]) == ValueType::TypeDeletion);
                        assert(user_key_of(keys[i]) == ukey);
                    }
                }
            }
        }
    }
    if read_sees(keys, Set::full(), ukey, s, i) {
        lemma_merge_keeps_youngest(keys, i, smallest_seq, base);
        if sequence_of(keys[i]) <= smallest_seq {
            assert(youngest_at_or_below(keys, i, smallest_seq));
        }
    }
}

/// The rules' memory while a merge runs.
#[derive(Debug)]
pub struct KeyTracker {
    /// Whether a user key was seen yet.
    pub have_ukey: bool,
    /// The user key of the entries under way.
    pub current_ukey: Vec<u8>,
    /// Sequence number of the entry of that user key written last.
    pub last_seq_for_key: u64,
}

impl View for KeyTracker {
    type V = Track;

    open spec fn view(&self) -> Track {
        Track {
            have_ukey: self.have_ukey,
            current_ukey: self.current_ukey@,
            last_seq: self.last_seq_for_key,
        }
    }
}

impl KeyTracker {
    /// The memory before the first entry.
    pub fn new() -> (r: KeyTracker)
        ensures
            r@ == track_start(),
    {
        KeyTracker {
            have_ukey: false,
            current_ukey: Vec::new(),
            last_seq_for_key: MAX_SEQUENCE_NUMBER,
        }
    }

    /// Whether the entry `ikey` is obsolete whatever the deeper levels hold;
    /// the memory moves on to the entry's user key. `None` where the key does
    /// not parse.
    fn enter(&mut self, ikey: &[u8], smallest_seq: u64) -> (r: Option<bool>)
        ensures
            r.is_none() == (sequence_of(ikey@) == 0),
            r.is_none() ==> final(self)@ == (Track {
                last_seq: MAX_SEQUENCE_NUMBER,
                ..old(self)@
            }),
            r.is_some() ==> final(self)@ == track_at(old(self)@, ikey@),
            r.is_some() ==> r.unwrap() == (track_at(old(self)@, ikey@).last_seq <= smallest_seq),
    {
        let (_kind, seq, _n) = parse_internal_key(ikey);
        if seq == 0 {
            self.last_seq_for_key = MAX_SEQUENCE_NUMBER;
            return None;
        }
        let ukey = extract_user_key(ikey);
        if !self.have_ukey || !bytes_eq(ukey, self.current_ukey.as_slice()) {
            self.current_ukey = copy_bytes(ukey);
            self.have_ukey = true;
            self.last_seq_for_key = MAX_SEQUENCE_NUMBER;
        }
        Some(self.last_seq_for_key <= smallest_seq)
    }

    /// Judges the entry `ikey` and moves the memory on. `base` tells whether
    /// no deeper level can hold the entry's user key.
    pub fn judge(&mut self, ikey: &[u8], smallest_seq: u64, base: bool) -> (r: Verdict)
        ensures
            r == verdict(old(self)@, ikey@, smallest_seq, base),
            final(self)@ == track_next(old(self)@, ikey@, smallest_seq, base),
    {
        match self.enter(ikey, smallest_seq) {
            None => Verdict::Skip,
            Some(true) => Verdict::Drop,
            Some(false) => {
                let (kind, seq, _n) = parse_internal_key(ikey);
                let tombstone = match kind {
                    ValueType::TypeDeletion => true,
                    ValueType::TypeValue => false,
                };
                if tombstone && seq <= smallest_seq && base {
                    Verdict::Drop
                } else {
                    self.last_seq_for_key = seq;
                    Verdict::Write
                }
            },
        }
    }
}

} // verus!
