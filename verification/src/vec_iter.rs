//! A cursor over entries that are held in memory.

use vstd::prelude::*;
use crate::key_types::{bytes_lt, copy_bytes, lex_lt};
use crate::types::{next_place, LdbIterator};

verus! {

/// The entries of a list, as plain values.
pub open spec fn entries_view(entries: Seq<(Vec<u8>, Vec<u8>)>) -> Seq<(Seq<u8>, Seq<u8>)> {
    Seq::new(entries.len(), |i: int| (entries[i].0@, entries[i].1@))
}

/// The place of the first entry, from `from` on, whose key does not sort
/// before `key` in bytewise order; `None` where every key does.
pub open spec fn first_not_before_key(
    entries: Seq<(Seq<u8>, Seq<u8>)>,
    key: Seq<u8>,
    from: int,
) -> Option<int>
    decreases entries.len() - from,
{
    if from < 0 || from >= entries.len() {
        None
    } else if !lex_lt(entries[from].0, key) {
        Some(from)
    } else {
        first_not_before_key(entries, key, from + 1)
    }
}

/// The place before `place`: the entry before an entry, and none before the
/// first entry or from no entry.
pub open spec fn prev_place(place: Option<int>) -> Option<int> {
    match place {
        Some(i) => if i > 0 {
            Some(i - 1)
        } else {
            None
        },
        None => None,
    }
}

/// A cursor over a list of entries, which it takes in the order of the list.
#[derive(Debug)]
pub struct VecIterator {
    entries: Vec<(Vec<u8>, Vec<u8>)>,
    at: Option<usize>,
}

impl VecIterator {
    /// A cursor over `entries` that stands before the first of them.
    pub fn new(entries: Vec<(Vec<u8>, Vec<u8>)>) -> (r: VecIterator)
        ensures
            r.entries() == entries_view(entries@),
            r.place().is_none(),
    {
        VecIterator { entries, at: None }
    }

    fn place_now(&self) -> (r: Option<usize>)
        ensures
            match r {
                Some(i) => self.place() == Some(i as int) && i < self.entries@.len(),
                None => self.place().is_none(),
            },
    {
        match self.at {
            Some(i) => if i < self.entries.len() {
                Some(i)
            } else {
                None
            },
            None => None,
        }
    }
}

impl LdbIterator for VecIterator {
    closed spec fn entries(&self) -> Seq<(Seq<u8>, Seq<u8>)> {
        entries_view(self.entries@)
    }

    closed spec fn place(&self) -> Option<int> {
        match self.at {
            Some(i) => if i < self.entries@.len() {
                Some(i as int)
            } else {
                None
            },
            None => None,
        }
    }

    fn advance(&mut self) -> (r: bool) {
        let n = self.entries.len();
        let next: Option<usize> = match self.place_now() {
            None => if n > 0 {
                Some(0)
            } else {
                None
            },
            Some(i) => if i + 1 < n {
                Some(i + 1)
            } else {
                None
            },
        };
        self.at = next;
        next.is_some()
    }

    /// Moves to the first entry whose key does not sort before `key` in
    /// bytewise order; where there is none the cursor stands on no entry.
    fn seek(&mut self, key: &[u8])
        ensures
            final(self).entries() == old(self).entries(),
            final(self).place() == first_not_before_key(old(self).entries(), key@, 0),
    {
        let mut i: usize = 0;
        self.at = None;
        while i < self.entries.len()
            invariant
                i <= self.entries@.len(),
                self.entries == old(self).entries,
                self.at.is_none(),
                first_not_before_key(self.entries(), key@, 0) == first_not_before_key(
                    self.entries(),
                    key@,
                    i as int,
                ),
            decreases self.entries.len() - i,
        {
            if !bytes_lt(self.entries[i].0.as_slice(), key) {
                self.at = Some(i);
                return ;
            }
            i += 1;
        }
    }

    fn reset(&mut self) {
        self.at = None;
    }

    fn valid(&self) -> (r: bool) {
        self.place_now().is_some()
    }

    fn current(&self) -> (r: Option<(Vec<u8>, Vec<u8>)>) {
        match self.place_now() {
            None => None,
            Some(i) => Some(
                (
                    copy_bytes(self.entries[i].0.as_slice()),
                    copy_bytes(self.entries[i].1.as_slice()),
                ),
            ),
        }
    }

    /// Moves to the entry before the one that the cursor stands on; where
    /// there is none the cursor stands on no entry.
    fn prev(&mut self) -> (r: bool)
        ensures
            final(self).entries() == old(self).entries(),
            final(self).place() == prev_place(old(self).place()),
            r == final(self).place().is_some(),
    {
        let before: Option<usize> = match self.place_now() {
            Some(i) => if i > 0 {
                Some(i - 1)
            } else {
                None
            },
            None => None,
        };
        self.at = before;
        before.is_some()
    }
}

} // verus!
