//! Basic vocabulary shared by every part of the engine.

use vstd::prelude::*;
use std::cmp::Ordering;
use crate::key_types::{bytes_lt, lex_lt};

verus! {

/// Sequence number of a single entry.
pub type SequenceNumber = u64;

/// Largest sequence number an entry can carry (56 bits).
pub const MAX_SEQUENCE_NUMBER: u64 = 0x00ff_ffff_ffff_ffff;

/// Number of levels of table files.
pub const NUM_LEVELS: usize = 7;

/// Kind of an entry: a tombstone or a value.
#[derive(Clone, Copy, Debug, PartialEq, Eq, Structural)]
pub enum ValueType {
    TypeDeletion,
    TypeValue,
}

impl ValueType {
    /// The byte that stands for this kind inside an internal key.
    pub open spec fn tag(self) -> u8 {
        match self {
            ValueType::TypeDeletion => 0u8,
            ValueType::TypeValue => 1u8,
        }
    }

    /// The byte that stands for this kind inside an internal key.
    pub fn to_u8(self) -> (r: u8)
        ensures
            r == self.tag(),
    {
        match self {
            ValueType::TypeDeletion => 0u8,
            ValueType::TypeValue => 1u8,
        }
    }
}

/// How an operation ended: well, or with one of the kinds of failure, each
/// with a message.
#[allow(dead_code)]
#[derive(Debug)]
pub enum Status {
    OK,
    NotFound(String),
    Corruption(String),
    NotSupported(String),
    InvalidArgument(String),
    IOError(String),
    LockError(String),
}

/// The kind of a `Status`, without its message.
#[derive(Clone, Copy, Debug, PartialEq, Eq, Structural)]
pub enum StatusCode {
    OK,
    NotFound,
    Corruption,
    NotSupported,
    InvalidArgument,
    IOError,
    LockError,
}

impl Status {
    /// The kind of this status.
    pub open spec fn spec_code(&self) -> StatusCode {
        match self {
            Status::OK => StatusCode::OK,
            Status::NotFound(_) => StatusCode::NotFound,
            Status::Corruption(_) => StatusCode::Corruption,
            Status::NotSupported(_) => StatusCode::NotSupported,
            Status::InvalidArgument(_) => StatusCode::InvalidArgument,
            Status::IOError(_) => StatusCode::IOError,
            Status::LockError(_) => StatusCode::LockError,
        }
    }

    /// The message of this status; empty for `OK`.
    pub open spec fn spec_message(&self) -> Seq<char> {
        match self {
            Status::OK => Seq::empty(),
            Status::NotFound(m) => m@,
            Status::Corruption(m) => m@,
            Status::NotSupported(m) => m@,
            Status::InvalidArgument(m) => m@,
            Status::IOError(m) => m@,
            Status::LockError(m) => m@,
        }
    }

    /// The kind of this status.
    pub fn code(&self) -> (r: StatusCode)
        ensures
            r == self.spec_code(),
    {
        match self {
            Status::OK => StatusCode::OK,
            Status::NotFound(_) => StatusCode::NotFound,
            Status::Corruption(_) => StatusCode::Corruption,
            Status::NotSupported(_) => StatusCode::NotSupported,
            Status::InvalidArgument(_) => StatusCode::InvalidArgument,
            Status::IOError(_) => StatusCode::IOError,
            Status::LockError(_) => StatusCode::LockError,
        }
    }

    /// A status of kind `code` with the message `msg`; `OK` carries none.
    pub fn new(code: StatusCode, msg: &str) -> (r: Status)
        ensures
            r.spec_code() == code,
            code != StatusCode::OK ==> r.spec_message() == msg@,
    {
        match code {
            StatusCode::OK => Status::OK,
            StatusCode::NotFound => Status::NotFound(msg.to_owned()),
            StatusCode::Corruption => Status::Corruption(msg.to_owned()),
            StatusCode::NotSupported => Status::NotSupported(msg.to_owned()),
            StatusCode::InvalidArgument => Status::InvalidArgument(msg.to_owned()),
            StatusCode::IOError => Status::IOError(msg.to_owned()),
            StatusCode::LockError => Status::LockError(msg.to_owned()),
        }
    }

    /// The message of this status; empty for `OK`.
    pub fn message(&self) -> (r: String)
        ensures
            r@ == self.spec_message(),
    {
        match self {
            Status::OK => String::new(),
            Status::NotFound(m) => m.clone(),
            Status::Corruption(m) => m.clone(),
            Status::NotSupported(m) => m.clone(),
            Status::InvalidArgument(m) => m.clone(),
            Status::IOError(m) => m.clone(),
            Status::LockError(m) => m.clone(),
        }
    }
}

/// Decides the order of user keys. `StandardComparator` is the bytewise
/// order.
pub trait Comparator: Copy {
    /// Whether `a` sorts strictly before `b` in this order.
    spec fn sorts_before(&self, a: Seq<u8>, b: Seq<u8>) -> bool;

    /// How `a` stands to `b`.
    fn cmp(&self, a: &[u8], b: &[u8]) -> (r: Ordering)
        ensures
            (r is Less) == self.sorts_before(a@, b@),
            (r is Greater) == self.sorts_before(b@, a@),
    ;
}

/// The bytewise lexicographic order.
#[derive(Clone, Copy, Default)]
pub struct StandardComparator;

impl Comparator for StandardComparator {
    open spec fn sorts_before(&self, a: Seq<u8>, b: Seq<u8>) -> bool {
        lex_lt(a, b)
    }

    fn cmp(&self, a: &[u8], b: &[u8]) -> (r: Ordering) {
        proof {
            crate::key_types::lemma_lex_trichotomy(a@, b@);
        }
        if bytes_lt(a, b) {
            Ordering::Less
        } else if bytes_lt(b, a) {
            Ordering::Greater
        } else {
            Ordering::Equal
        }
    }
}

/// A range of user keys, from `start` up to `limit`.
pub struct Range<'a> {
    pub start: &'a [u8],
    pub limit: &'a [u8],
}

/// The place behind `place` among `len` entries: the first entry from before
/// the first, the next entry from an entry, and none where there is no such
/// entry.
pub open spec fn next_place(place: Option<int>, len: nat) -> Option<int> {
    match place {
        None => if len > 0 {
            Some(0int)
        } else {
            None
        },
        Some(i) => if 0 <= i + 1 < len {
            Some(i + 1)
        } else {
            None
        },
    }
}

/// A cursor over entries in key order that remembers the entry it stands on.
/// A cursor that stands on no entry stands before the first; an
/// implementation is in that state before the first call of `advance`.
pub trait LdbIterator {
    /// The entries that the cursor runs over, in their order: keys and
    /// values.
    spec fn entries(&self) -> Seq<(Seq<u8>, Seq<u8>)>;

    /// The place of the entry that the cursor stands on; `None` where it
    /// stands on none.
    spec fn place(&self) -> Option<int>;

    /// Moves to the next entry; false where there is none.
    fn advance(&mut self) -> (r: bool)
        ensures
            final(self).entries() == old(self).entries(),
            final(self).place() == next_place(old(self).place(), old(self).entries().len()),
            r == final(self).place().is_some(),
    ;

    /// Moves to `key`, or to the next entry behind it. Where there is none
    /// the cursor is reset and not valid.
    fn seek(&mut self, key: &[u8]);

    /// Puts the cursor before the first entry, where it is not valid.
    fn reset(&mut self)
        ensures
            final(self).entries() == old(self).entries(),
            final(self).place().is_none(),
    ;

    /// Whether the cursor stands on an entry.
    fn valid(&self) -> (r: bool)
        ensures
            r == self.place().is_some(),
    ;

    /// Key and value of the entry that the cursor stands on.
    fn current(&self) -> (r: Option<(Vec<u8>, Vec<u8>)>)
        ensures
            r.is_some() == self.place().is_some(),
            r.is_some() && 0 <= self.place().unwrap() < self.entries().len() ==> r.unwrap().0@
                == self.entries()[self.place().unwrap()].0 && r.unwrap().1@
                == self.entries()[self.place().unwrap()].1,
    ;

    /// Moves to the previous entry; false where there is none.
    fn prev(&mut self) -> bool;

    /// Moves to the first entry: afterwards the cursor stands on the first
    /// of its entries, or on none where it has none.
    fn seek_to_first(&mut self)
        ensures
            final(self).entries() == old(self).entries(),
            final(self).place() == if old(self).entries().len() > 0 {
                Some(0int)
            } else {
                None
            },
    {
        self.reset();
        self.advance();
    }
}

/// Deepest level that a flushed write buffer may be placed at.
pub const MAX_MEM_COMPACT_LEVEL: usize = 2;

/// Number of level-0 files from which on level 0 is due for compaction.
pub const L0_COMPACTION_TRIGGER: u64 = 4;

/// The tunables that the engine reads.
#[derive(Clone, Copy, Debug)]
pub struct Options {
    /// Create the database on open if it is absent.
    pub create_if_missing: bool,
    /// Fail on open if the database is present.
    pub error_if_exists: bool,
    /// Size from which on the write buffer is rotated.
    pub write_buffer_size: u64,
    /// Target size of a table file.
    pub max_file_size: u64,
    /// Append to the last write-ahead log on recovery where that is possible.
    pub reuse_logs: bool,
    /// Keep appending to the recovered manifest.
    pub reuse_manifest: bool,
    /// Most files that may be open at once; ten of them are kept back from
    /// the cache of open tables.
    pub max_open_files: usize,
}

impl Options {
    /// Most bytes of the level after next that one output file may overlap:
    /// ten target file sizes.
    pub open spec fn spec_max_grandparent_overlap_bytes(&self) -> int {
        10 * self.max_file_size
    }

    /// Most bytes of the level after next that one output file may overlap.
    pub fn max_grandparent_overlap_bytes(&self) -> (r: u128)
        ensures
            r == self.spec_max_grandparent_overlap_bytes(),
    {
        10u128 * (self.max_file_size as u128)
    }

    /// Number of tables that the cache of open tables may hold: the files
    /// that may be open, less ten that are kept back.
    pub fn table_cache_capacity(&self) -> (r: usize)
        requires
            self.max_open_files >= 10,
        ensures
            r == self.max_open_files - 10,
    {
        self.max_open_files - 10
    }

    /// Most bytes that a compaction's inputs may grow to: 25 target file
    /// sizes.
    pub open spec fn spec_expanded_compaction_byte_size_limit(&self) -> int {
        25 * self.max_file_size
    }

    /// Most bytes that a compaction's inputs may grow to.
    pub fn expanded_compaction_byte_size_limit(&self) -> (r: u128)
        ensures
            r == self.spec_expanded_compaction_byte_size_limit(),
    {
        25u128 * (self.max_file_size as u128)
    }
}

impl Default for Options {
    fn default() -> (r: Options)
        ensures
            r.max_file_size == 2 * 1024 * 1024,
            r.write_buffer_size == 4 * 1024 * 1024,
            r.create_if_missing,
            !r.error_if_exists,
            r.reuse_logs,
            r.reuse_manifest,
            r.max_open_files == 1024,
    {
        Options {
            create_if_missing: true,
            error_if_exists: false,
            write_buffer_size: 4 * 1024 * 1024,
            max_file_size: 2 * 1024 * 1024,
            reuse_logs: true,
            reuse_manifest: true,
            max_open_files: 1024,
        }
    }
}

} // verus!
