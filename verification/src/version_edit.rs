//! A version edit: the delta that leads from one version to the next.

use vstd::prelude::*;
use vstd::slice::slice_subrange;
use crate::key_types::copy_bytes;
use crate::types::{Status, StatusCode, NUM_LEVELS};
use crate::version::{FileMetaData, FileMetaView, FileNum};

verus! {

/// A file that an edit adds, as plain values: what the manifest records of it.
pub ghost struct NewFileView {
    pub level: usize,
    pub num: u64,
    pub size: u64,
    pub smallest: Seq<u8>,
    pub largest: Seq<u8>,
}

/// What an edit holds, as plain values.
pub ghost struct EditView {
    pub comparator: Option<Seq<u8>>,
    pub log_number: Option<u64>,
    pub prev_log_number: Option<u64>,
    pub next_file_number: Option<u64>,
    pub last_seq: Option<u64>,
    pub compaction_ptrs: Seq<(usize, Seq<u8>)>,
    pub deleted: Seq<(usize, u64)>,
    pub new_files: Seq<NewFileView>,
}

/// A delta against a version: files added and deleted per level, and the
/// counters to set.
#[derive(Debug)]
pub struct VersionEdit {
    /// Name of the comparator that orders the user keys.
    pub comparator: Option<Vec<u8>>,
    /// Number of the write-ahead log in use.
    pub log_number: Option<FileNum>,
    /// Number of the write-ahead log before that.
    pub prev_log_number: Option<FileNum>,
    /// Next file number to hand out.
    pub next_file_number: Option<FileNum>,
    /// Last sequence number handed out.
    pub last_seq: Option<u64>,
    /// Per level, the key behind which the next compaction of the level starts.
    pub compaction_ptrs: Vec<(usize, Vec<u8>)>,
    /// Files to take out: level and number.
    pub deleted: Vec<(usize, FileNum)>,
    /// Files to add: level and descriptor.
    pub new_files: Vec<(usize, FileMetaData)>,
}

/// What the manifest records of a file added at `level`.
pub open spec fn new_file_view(level: usize, f: FileMetaView) -> NewFileView {
    NewFileView { level, num: f.num, size: f.size, smallest: f.smallest, largest: f.largest }
}

impl View for VersionEdit {
    type V = EditView;

    open spec fn view(&self) -> EditView {
        EditView {
            comparator: match self.comparator {
                Some(c) => Some(c@),
                None => None,
            },
            log_number: self.log_number,
            prev_log_number: self.prev_log_number,
            next_file_number: self.next_file_number,
            last_seq: self.last_seq,
            compaction_ptrs: Seq::new(
                self.compaction_ptrs@.len(),
                |i: int| (self.compaction_ptrs@[i].0, self.compaction_ptrs@[i].1@),
            ),
            deleted: self.deleted@,
            new_files: Seq::new(
                self.new_files@.len(),
                |i: int| new_file_view(self.new_files@[i].0, self.new_files@[i].1@),
            ),
        }
    }
}

impl EditView {
    /// The edit that changes nothing.
    pub open spec fn empty() -> EditView {
        EditView {
            comparator: None,
            log_number: None,
            prev_log_number: None,
            next_file_number: None,
            last_seq: None,
            compaction_ptrs: Seq::empty(),
            deleted: Seq::empty(),
            new_files: Seq::empty(),
        }
    }
}

impl VersionEdit {
    /// An edit that changes nothing.
    pub fn new() -> (r: VersionEdit)
        ensures
            r@ == EditView::empty(),
    {
        let r = VersionEdit {
            comparator: None,
            log_number: None,
            prev_log_number: None,
            next_file_number: None,
            last_seq: None,
            compaction_ptrs: Vec::new(),
            deleted: Vec::new(),
            new_files: Vec::new(),
        };
        assert(r@.compaction_ptrs =~= Seq::empty());
        assert(r@.new_files =~= Seq::empty());
        r
    }

    /// Records the name of the comparator.
    pub fn set_comparator_name(&mut self, name: &[u8])
        ensures
            final(self)@ == (EditView { comparator: Some(name@), ..old(self)@ }),
    {
        self.comparator = Some(copy_bytes(name));
    }

    /// Records the number of the write-ahead log in use.
    pub fn set_log_num(&mut self, num: FileNum)
        ensures
            final(self)@ == (EditView { log_number: Some(num), ..old(self)@ }),
    {
        self.log_number = Some(num);
    }

    /// Records the number of the write-ahead log before the one in use.
    pub fn set_prev_log_num(&mut self, num: FileNum)
        ensures
            final(self)@ == (EditView { prev_log_number: Some(num), ..old(self)@ }),
    {
        self.prev_log_number = Some(num);
    }

    /// Records the next file number to hand out.
    pub fn set_next_file(&mut self, num: FileNum)
        ensures
            final(self)@ == (EditView { next_file_number: Some(num), ..old(self)@ }),
    {
        self.next_file_number = Some(num);
    }

    /// Records the last sequence number handed out.
    pub fn set_last_seq(&mut self, seq: u64)
        ensures
            final(self)@ == (EditView { last_seq: Some(seq), ..old(self)@ }),
    {
        self.last_seq = Some(seq);
    }

    /// Records the key behind which the next compaction of `level` starts.
    pub fn set_compact_pointer(&mut self, level: usize, key: &[u8])
        ensures
            final(self)@ == (EditView {
                compaction_ptrs: old(self)@.compaction_ptrs.push((level, key@)),
                ..old(self)@
            }),
    {
        self.compaction_ptrs.push((level, copy_bytes(key)));
        assert(self@.compaction_ptrs =~= old(self)@.compaction_ptrs.push((level, key@)));
        assert(self@.new_files =~= old(self)@.new_files);
    }

    /// Records that the file `num` leaves `level`.
    pub fn delete_file(&mut self, level: usize, num: FileNum)
        ensures
            final(self)@ == (EditView {
                deleted: old(self)@.deleted.push((level, num)),
                ..old(self)@
            }),
    {
        self.deleted.push((level, num));
        assert(self@.compaction_ptrs =~= old(self)@.compaction_ptrs);
        assert(self@.new_files =~= old(self)@.new_files);
    }

    /// Records that the file `file` joins `level`.
    pub fn add_file(&mut self, level: usize, file: FileMetaData)
        ensures
            final(self)@ == (EditView {
                new_files: old(self)@.new_files.push(new_file_view(level, file@)),
                ..old(self)@
            }),
            final(self).new_files@.len() == old(self).new_files@.len() + 1,
            final(self).new_files@[old(self).new_files@.len() as int].1@ == file@,
    {
        self.new_files.push((level, file));
        assert(self@.compaction_ptrs =~= old(self)@.compaction_ptrs);
        assert(self@.new_files =~= old(self)@.new_files.push(new_file_view(level, file@)));
    }
}

/// The bytes that stand for `v` on the wire: seven bits per byte, least
/// significant first, the top bit set on every byte but the last.
pub open spec fn varint(v: u64) -> Seq<u8>
    decreases v,
{
    if v < 128 {
        seq![v as u8]
    } else {
        seq![(128 + v % 128) as u8] + varint(v / 128)
    }
}

/// A byte string on the wire: its length as a varint, then its bytes.
pub open spec fn enc_string(b: Seq<u8>) -> Seq<u8> {
    varint(b.len() as u64) + b
}

/// A field that holds one number: the tag, then the number.
pub open spec fn enc_number(tag: u64, v: Option<u64>) -> Seq<u8> {
    match v {
        Some(n) => varint(tag) + varint(n),
        None => Seq::empty(),
    }
}

/// The field for the comparator's name.
pub open spec fn enc_comparator(name: Option<Seq<u8>>) -> Seq<u8> {
    match name {
        Some(n) => varint(1) + enc_string(n),
        None => Seq::empty(),
    }
}

/// One compaction pointer: tag 5, the level, the key.
pub open spec fn enc_ptr(p: (usize, Seq<u8>)) -> Seq<u8> {
    varint(5) + varint(p.0 as u64) + enc_string(p.1)
}

/// One deleted file: tag 6, the level, the file number.
pub open spec fn enc_deleted_file(d: (usize, u64)) -> Seq<u8> {
    varint(6) + varint(d.0 as u64) + varint(d.1)
}

/// One new file: tag 7, the level, number, size, smallest and largest key.
pub open spec fn enc_new_file(f: NewFileView) -> Seq<u8> {
    varint(7) + varint(f.level as u64) + varint(f.num) + varint(f.size) + enc_string(f.smallest)
        + enc_string(f.largest)
}

/// The first `n` compaction pointers, one behind the other.
pub open spec fn enc_ptrs(ptrs: Seq<(usize, Seq<u8>)>, n: int) -> Seq<u8>
    decreases n,
{
    if n <= 0 {
        Seq::empty()
    } else {
        enc_ptrs(ptrs, n - 1) + enc_ptr(ptrs[n - 1])
    }
}

/// The first `n` deleted files, one behind the other.
pub open spec fn enc_deleted(deleted: Seq<(usize, u64)>, n: int) -> Seq<u8>
    decreases n,
{
    if n <= 0 {
        Seq::empty()
    } else {
        enc_deleted(deleted, n - 1) + enc_deleted_file(deleted[n - 1])
    }
}

/// The first `n` new files, one behind the other.
pub open spec fn enc_new_files(files: Seq<NewFileView>, n: int) -> Seq<u8>
    decreases n,
{
    if n <= 0 {
        Seq::empty()
    } else {
        enc_new_files(files, n - 1) + enc_new_file(files[n - 1])
    }
}

/// The record that stands for an edit in the manifest: the fields that are
/// set, each behind its tag, in the order comparator, log number, previous
/// log number, next file number, last sequence, compaction pointers, deleted
/// files, new files.
pub open spec fn enc_edit(e: EditView) -> Seq<u8> {
    enc_comparator(e.comparator) + enc_number(2, e.log_number) + enc_number(
        9,
        e.prev_log_number,
    ) + enc_number(3, e.next_file_number) + enc_number(4, e.last_seq) + enc_ptrs(
        e.compaction_ptrs,
        e.compaction_ptrs.len() as int,
    ) + enc_deleted(e.deleted, e.deleted.len() as int) + enc_new_files(
        e.new_files,
        e.new_files.len() as int,
    )
}

/// Appends `v` as a varint.
pub fn put_varint(dst: &mut Vec<u8>, v: u64)
    ensures
        final(dst)@ == old(dst)@ + varint(v),
{
    let mut rest: u64 = v;
    while rest >= 128
        invariant
            old(dst)@ + varint(v) == dst@ + varint(rest),
        decreases rest,
    {
        let ghost before = dst@;
        dst.push((128 + rest % 128) as u8);
        assert(before + varint(rest) =~= dst@ + varint(rest / 128));
        rest = rest / 128;
    }
    let ghost before = dst@;
    dst.push(rest as u8);
    assert(before + varint(rest) =~= dst@);
}

/// Appends a byte string: its length as a varint, then its bytes.
pub fn put_string(dst: &mut Vec<u8>, b: &[u8])
    ensures
        final(dst)@ == old(dst)@ + enc_string(b@),
{
    put_varint(dst, b.len() as u64);
    let ghost start = dst@;
    let mut i: usize = 0;
    while i < b.len()
        invariant
            i <= b.len(),
            dst@ == start + b@.subrange(0, i as int),
        decreases b.len() - i,
    {
        dst.push(b[i]);
        i += 1;
        assert(dst@ =~= start + b@.subrange(0, i as int));
    }
    assert(b@.subrange(0, i as int) =~= b@);
    assert(dst@ =~= old(dst)@ + enc_string(b@));
}

fn put_number(dst: &mut Vec<u8>, tag: u64, v: Option<u64>)
    ensures
        final(dst)@ == old(dst)@ + enc_number(tag, v),
{
    match v {
        Some(n) => {
            put_varint(dst, tag);
            put_varint(dst, n);
            assert(dst@ =~= old(dst)@ + enc_number(tag, v));
        },
        None => {
            assert(dst@ =~= old(dst)@ + enc_number(tag, v));
        },
    }
}

impl VersionEdit {
    /// The record that stands for this edit in the manifest.
    pub fn encode(&self) -> (r: Vec<u8>)
        ensures
            r@ == enc_edit(self@),
    {
        let mut dst: Vec<u8> = Vec::new();
        match &self.comparator {
            Some(name) => {
                put_varint(&mut dst, 1);
                put_string(&mut dst, name.as_slice());
            },
            None => {},
        }
        assert(dst@ =~= enc_comparator(self@.comparator));
        put_number(&mut dst, 2, self.log_number);
        put_number(&mut dst, 9, self.prev_log_number);
        put_number(&mut dst, 3, self.next_file_number);
        put_number(&mut dst, 4, self.last_seq);
        let ghost head = dst@;
        let mut i: usize = 0;
        while i < self.compaction_ptrs.len()
            invariant
                i <= self.compaction_ptrs@.len(),
                dst@ == head + enc_ptrs(self@.compaction_ptrs, i as int),
            decreases self.compaction_ptrs.len() - i,
        {
            let ghost before = dst@;
            put_varint(&mut dst, 5);
            put_varint(&mut dst, self.compaction_ptrs[i].0 as u64);
            put_string(&mut dst, self.compaction_ptrs[i].1.as_slice());
            assert(dst@ =~= before + enc_ptr(self@.compaction_ptrs[i as int]));
            i += 1;
            assert(dst@ =~= head + enc_ptrs(self@.compaction_ptrs, i as int));
        }
        let ghost head2 = dst@;
        let mut j: usize = 0;
        while j < self.deleted.len()
            invariant
                j <= self.deleted@.len(),
                dst@ == head2 + enc_deleted(self@.deleted, j as int),
            decreases self.deleted.len() - j,
        {
            let ghost before = dst@;
            put_varint(&mut dst, 6);
            put_varint(&mut dst, self.deleted[j].0 as u64);
            put_varint(&mut dst, self.deleted[j].1);
            assert(dst@ =~= before + enc_deleted_file(self@.deleted[j as int]));
            j += 1;
            assert(dst@ =~= head2 + enc_deleted(self@.deleted, j as int));
        }
        let ghost head3 = dst@;
        let mut k: usize = 0;
        while k < self.new_files.len()
            invariant
                k <= self.new_files@.len(),
                dst@ == head3 + enc_new_files(self@.new_files, k as int),
            decreases self.new_files.len() - k,
        {
            let ghost before = dst@;
            let f = &self.new_files[k].1;
            put_varint(&mut dst, 7);
            put_varint(&mut dst, self.new_files[k].0 as u64);
            put_varint(&mut dst, f.num);
            put_varint(&mut dst, f.size);
            put_string(&mut dst, f.smallest.as_slice());
            put_string(&mut dst, f.largest.as_slice());
            assert(dst@ =~= before + enc_new_file(self@.new_files[k as int]));
            k += 1;
            assert(dst@ =~= head3 + enc_new_files(self@.new_files, k as int));
        }
        assert(dst@ =~= enc_edit(self@));
        dst
    }
}

/// The number that a varint from `pos` on stands for, and the place behind
/// it. `mul` is the weight of the byte at `pos` and `acc` what the bytes
/// before it add up to. A varint that runs out of bytes, has more than ten
/// bytes or does not fit in 64 bits stands for nothing.
pub open spec fn dec_varint_from(b: Seq<u8>, pos: int, mul: int, acc: int) -> Option<(u64, int)>
    decreases b.len() - pos,
{
    if pos < 0 || pos >= b.len() {
        None
    } else {
        let total = acc + (b[pos] % 128) * mul;
        if b[pos] < 128 {
            if total <= u64::MAX {
                Some((total as u64, pos + 1))
            } else {
                None
            }
        } else if mul >= 0x8000_0000_0000_0000 {
            None
        } else {
            dec_varint_from(b, pos + 1, mul * 128, total)
        }
    }
}

/// The number that the varint at `pos` stands for, and the place behind it.
pub open spec fn dec_varint(b: Seq<u8>, pos: int) -> Option<(u64, int)> {
    dec_varint_from(b, pos, 1, 0)
}

/// The byte string at `pos`, and the place behind it.
pub open spec fn dec_string(b: Seq<u8>, pos: int) -> Option<(Seq<u8>, int)> {
    match dec_varint(b, pos) {
        Some((n, p)) => if p + n <= b.len() {
            Some((b.subrange(p, p + n), p + n))
        } else {
            None
        },
        None => None,
    }
}

/// The level at `pos`, and the place behind it. A number that is no level
/// stands for nothing.
pub open spec fn dec_level(b: Seq<u8>, pos: int) -> Option<(usize, int)> {
    match dec_varint(b, pos) {
        Some((n, p)) => if n < NUM_LEVELS {
            Some((n as usize, p))
        } else {
            None
        },
        None => None,
    }
}

/// The new file at `pos`, behind its tag: level, number, size, smallest and
/// largest key.
pub open spec fn dec_new_file(b: Seq<u8>, pos: int) -> Option<(NewFileView, int)> {
    match dec_level(b, pos) {
        None => None,
        Some((level, at1)) => match dec_varint(b, at1) {
            None => None,
            Some((num, at2)) => match dec_varint(b, at2) {
                None => None,
                Some((size, at3)) => match dec_string(b, at3) {
                    None => None,
                    Some((smallest, at4)) => match dec_string(b, at4) {
                        None => None,
                        Some((largest, at5)) => Some(
                            (NewFileView { level, num, size, smallest, largest }, at5),
                        ),
                    },
                },
            },
        },
    }
}

/// `e` with the field at `pos` taken in, and the place behind the field. An
/// unknown tag, or a field that is cut short, gives nothing.
pub open spec fn dec_field(b: Seq<u8>, pos: int, e: EditView) -> Option<(EditView, int)> {
    match dec_varint(b, pos) {
        None => None,
        Some((tag, p)) => if tag == 1 {
            match dec_string(b, p) {
                Some((name, q)) => Some((EditView { comparator: Some(name), ..e }, q)),
                None => None,
            }
        } else if tag == 2 {
            match dec_varint(b, p) {
                Some((n, q)) => Some((EditView { log_number: Some(n), ..e }, q)),
                None => None,
            }
        } else if tag == 9 {
            match dec_varint(b, p) {
                Some((n, q)) => Some((EditView { prev_log_number: Some(n), ..e }, q)),
                None => None,
            }
        } else if tag == 3 {
            match dec_varint(b, p) {
                Some((n, q)) => Some((EditView { next_file_number: Some(n), ..e }, q)),
                None => None,
            }
        } else if tag == 4 {
            match dec_varint(b, p) {
                Some((n, q)) => Some((EditView { last_seq: Some(n), ..e }, q)),
                None => None,
            }
        } else if tag == 5 {
            match dec_level(b, p) {
                None => None,
                Some((level, q)) => match dec_string(b, q) {
                    Some((key, q2)) => Some(
                        (
                            EditView {
                                compaction_ptrs: e.compaction_ptrs.push((level, key)),
                                ..e
                            },
                            q2,
                        ),
                    ),
                    None => None,
                },
            }
        } else if tag == 6 {
            match dec_level(b, p) {
                None => None,
                Some((level, q)) => match dec_varint(b, q) {
                    Some((num, q2)) => Some(
                        (EditView { deleted: e.deleted.push((level, num)), ..e }, q2),
                    ),
                    None => None,
                },
            }
        } else if tag == 7 {
            match dec_new_file(b, p) {
                Some((f, q)) => Some((EditView { new_files: e.new_files.push(f), ..e }, q)),
                None => None,
            }
        } else {
            None
        },
    }
}

/// `e` with every field from `pos` on taken in.
pub open spec fn dec_fields(b: Seq<u8>, pos: int, e: EditView) -> Option<EditView>
    decreases b.len() - pos,
{
    if pos >= b.len() {
        Some(e)
    } else {
        match dec_field(b, pos, e) {
            None => None,
            Some((e2, at2)) => if pos < at2 <= b.len() {
                dec_fields(b, at2, e2)
            } else {
                None
            },
        }
    }
}

/// The edit that a manifest record stands for.
pub open spec fn dec_edit(b: Seq<u8>) -> Option<EditView> {
    dec_fields(b, 0, EditView::empty())
}

/// Reads the varint at `pos`: the number and the place behind it.
pub fn get_varint(b: &[u8], pos: usize) -> (r: Option<(u64, usize)>)
    ensures
        r.is_some() == dec_varint(b@, pos as int).is_some(),
        r.is_some() ==> r.unwrap().0 == dec_varint(b@, pos as int).unwrap().0 && r.unwrap().1
            == dec_varint(b@, pos as int).unwrap().1 && pos < r.unwrap().1 <= b@.len(),
{
    if pos >= b.len() {
        return None;
    }
    let mut i: usize = pos;
    let mut mul: u128 = 1;
    let mut acc: u128 = 0;
    while i < b.len()
        invariant
            pos <= i <= b@.len(),
            is_weight(mul as int),
            acc < mul,
            dec_varint(b@, pos as int) == dec_varint_from(b@, i as int, mul as int, acc as int),
        decreases b.len() - i,
    {
        let byte = b[i];
        let low: u128 = (byte % 128) as u128;
        assert(low * mul <= 127 * mul) by (nonlinear_arith)
            requires
                low <= 127,
                mul >= 0,
        ;
        let total: u128 = acc + low * mul;
        if byte < 128 {
            if total <= u64::MAX as u128 {
                return Some((total as u64, i + 1));
            } else {
                return None;
            }
        }
        if mul >= 0x8000_0000_0000_0000 {
            return None;
        }
        mul = mul * 128;
        acc = total;
        i += 1;
    }
    None
}

/// Whether `mul` is the weight of a byte of a varint: a power of 128 up to
/// the ninth.
pub open spec fn is_weight(mul: int) -> bool {
    mul == 1 || mul == 0x80 || mul == 0x4000 || mul == 0x20_0000 || mul == 0x1000_0000 || mul
        == 0x8_0000_0000 || mul == 0x400_0000_0000 || mul == 0x2_0000_0000_0000 || mul
        == 0x100_0000_0000_0000 || mul == 0x8000_0000_0000_0000
}

/// Reads the byte string at `pos`: the bytes and the place behind them.
pub fn get_string(b: &[u8], pos: usize) -> (r: Option<(Vec<u8>, usize)>)
    ensures
        r.is_some() == dec_string(b@, pos as int).is_some(),
        r.is_some() ==> r.unwrap().0@ == dec_string(b@, pos as int).unwrap().0 && r.unwrap().1
            == dec_string(b@, pos as int).unwrap().1 && pos < r.unwrap().1 <= b@.len(),
{
    match get_varint(b, pos) {
        None => None,
        Some((n, p)) => {
            if n > (b.len() - p) as u64 {
                return None;
            }
            let end: usize = p + n as usize;
            Some((copy_bytes(slice_subrange(b, p, end)), end))
        },
    }
}

fn get_level(b: &[u8], pos: usize) -> (r: Option<(usize, usize)>)
    ensures
        r.is_some() == dec_level(b@, pos as int).is_some(),
        r.is_some() ==> r.unwrap().0 == dec_level(b@, pos as int).unwrap().0 && r.unwrap().1
            == dec_level(b@, pos as int).unwrap().1 && pos < r.unwrap().1 <= b@.len(),
{
    match get_varint(b, pos) {
        None => None,
        Some((n, p)) => {
            if n >= NUM_LEVELS as u64 {
                None
            } else {
                Some((n as usize, p))
            }
        },
    }
}

fn get_new_file(b: &[u8], pos: usize) -> (r: Option<(usize, FileMetaData, usize)>)
    ensures
        r.is_some() == dec_new_file(b@, pos as int).is_some(),
        r.is_some() ==> new_file_view(r.unwrap().0, r.unwrap().1@) == dec_new_file(
            b@,
            pos as int,
        ).unwrap().0 && r.unwrap().2 == dec_new_file(b@, pos as int).unwrap().1 && pos
            < r.unwrap().2 <= b@.len(),
{
    let (level, at1) = match get_level(b, pos) {
        None => {
            return None;
        },
        Some(x) => x,
    };
    let (num, at2) = match get_varint(b, at1) {
        None => {
            return None;
        },
        Some(x) => x,
    };
    let (size, at3) = match get_varint(b, at2) {
        None => {
            return None;
        },
        Some(x) => x,
    };
    let (smallest, at4) = match get_string(b, at3) {
        None => {
            return None;
        },
        Some(x) => x,
    };
    let (largest, at5) = match get_string(b, at4) {
        None => {
            return None;
        },
        Some(x) => x,
    };
    Some((level, FileMetaData { allowed_seeks: 0, num, size, smallest, largest }, at5))
}

impl VersionEdit {
    fn decode_field(&mut self, b: &[u8], pos: usize) -> (r: Option<usize>)
        ensures
            r.is_some() == dec_field(b@, pos as int, old(self)@).is_some(),
            r.is_some() ==> final(self)@ == dec_field(b@, pos as int, old(self)@).unwrap().0
                && r.unwrap() == dec_field(b@, pos as int, old(self)@).unwrap().1 && pos
                < r.unwrap() <= b@.len(),
    {
        let (tag, p) = match get_varint(b, pos) {
            None => {
                return None;
            },
            Some(x) => x,
        };
        if tag == 1 {
            match get_string(b, p) {
                Some((name, q)) => {
                    self.set_comparator_name(name.as_slice());
                    Some(q)
                },
                None => None,
            }
        } else if tag == 2 {
            match get_varint(b, p) {
                Some((n, q)) => {
                    self.set_log_num(n);
                    Some(q)
                },
                None => None,
            }
        } else if tag == 9 {
            match get_varint(b, p) {
                Some((n, q)) => {
                    self.set_prev_log_num(n);
                    Some(q)
                },
                None => None,
            }
        } else if tag == 3 {
            match get_varint(b, p) {
                Some((n, q)) => {
                    self.set_next_file(n);
                    Some(q)
                },
                None => None,
            }
        } else if tag == 4 {
            match get_varint(b, p) {
                Some((n, q)) => {
                    self.set_last_seq(n);
                    Some(q)
                },
                None => None,
            }
        } else if tag == 5 {
            match get_level(b, p) {
                None => None,
                Some((level, q)) => match get_string(b, q) {
                    Some((key, q2)) => {
                        self.set_compact_pointer(level, key.as_slice());
                        Some(q2)
                    },
                    None => None,
                },
            }
        } else if tag == 6 {
            match get_level(b, p) {
                None => None,
                Some((level, q)) => match get_varint(b, q) {
                    Some((num, q2)) => {
                        self.delete_file(level, num);
                        Some(q2)
                    },
                    None => None,
                },
            }
        } else if tag == 7 {
            match get_new_file(b, p) {
                Some((level, f, q)) => {
                    self.add_file(level, f);
                    Some(q)
                },
                None => None,
            }
        } else {
            None
        }
    }

    /// Reads a manifest record. Fails with `Corruption` where the record
    /// holds an unknown tag, a level that does not exist, or a field that is
    /// cut short.
    pub fn decode_from(src: &[u8]) -> (r: Result<VersionEdit, Status>)
        ensures
            r.is_ok() == dec_edit(src@).is_some(),
            r.is_ok() ==> r.unwrap()@ == dec_edit(src@).unwrap(),
            r.is_err() ==> r.unwrap_err().spec_code() == StatusCode::Corruption,
    {
        let mut edit = VersionEdit::new();
        let mut pos: usize = 0;
        while pos < src.len()
            invariant
                pos <= src@.len(),
                dec_edit(src@) == dec_fields(src@, pos as int, edit@),
            decreases src.len() - pos,
        {
            match edit.decode_field(src, pos) {
                None => {
                    return Err(Status::new(StatusCode::Corruption, "bad version edit"));
                },
                Some(next) => {
                    pos = next;
                },
            }
        }
        Ok(edit)
    }
}

/// Whether the bytes `c` stand in `b` at `pos`.
pub open spec fn at(b: Seq<u8>, pos: int, c: Seq<u8>) -> bool {
    0 <= pos && pos + c.len() <= b.len() && b.subrange(pos, pos + c.len()) == c
}

/// Where two chunks stand one behind the other, each stands in its place.
pub proof fn lemma_split(b: Seq<u8>, pos: int, x: Seq<u8>, y: Seq<u8>)
    requires
        at(b, pos, x + y),
    ensures
        at(b, pos, x),
        at(b, pos + x.len(), y),
{
    let c = x + y;
    assert(b.subrange(pos, pos + x.len()) =~= c.subrange(0, x.len() as int));
    assert(c.subrange(0, x.len() as int) =~= x);
    assert(b.subrange(pos + x.len(), pos + x.len() + y.len()) =~= c.subrange(
        x.len() as int,
        c.len() as int,
    ));
    assert(c.subrange(x.len() as int, c.len() as int) =~= y);
}

/// A part of a chunk that stands in `b` stands in `b` itself.
pub proof fn lemma_sub_at(b: Seq<u8>, pos: int, c: Seq<u8>, off: int, x: Seq<u8>)
    requires
        at(b, pos, c),
        0 <= off,
        off + x.len() <= c.len(),
        c.subrange(off, off + x.len()) == x,
    ensures
        at(b, pos + off, x),
{
    assert(b.subrange(pos + off, pos + off + x.len()) =~= c.subrange(off, off + x.len()));
}

/// Reading a varint that was written gives the number back.
pub proof fn lemma_varint_from(b: Seq<u8>, pos: int, v: u64, mul: int, acc: int)
    requires
        at(b, pos, varint(v)),
        is_weight(mul),
        0 <= acc,
        acc + v * mul <= u64::MAX,
    ensures
        dec_varint_from(b, pos, mul, acc) == Some(
            ((acc + v * mul) as u64, pos + varint(v).len()),
        ),
    decreases v,
{
    let enc = varint(v);
    assert(b[pos] == b.subrange(pos, pos + enc.len())[0]);
    if v < 128 {
        assert(enc[0] == v as u8);
        assert((v as u8) % 128 == v);
    } else {
        let rest = varint(v / 128);
        assert(enc =~= seq![(128 + v % 128) as u8] + rest);
        let first = (128 + v % 128) as u8;
        assert(enc[0] == first);
        assert(first % 128 == v % 128);
        lemma_split(b, pos, seq![first], rest);
        assert(128 * mul <= v * mul) by (nonlinear_arith)
            requires
                v >= 128,
                mul >= 1,
        ;
        assert((v % 128) * mul + (v / 128) * (mul * 128) == v * mul) by (nonlinear_arith)
            requires
                v == 128 * (v / 128) + v % 128,
        ;
        assert(0 <= (v % 128) * mul) by (nonlinear_arith)
            requires
                v % 128 >= 0,
                mul >= 1,
        ;
        lemma_varint_from(b, pos + 1, (v / 128) as u64, mul * 128, acc + (v % 128) * mul);
    }
}

/// Reading a varint that was written gives the number back.
pub proof fn lemma_varint_at(b: Seq<u8>, pos: int, v: u64)
    requires
        at(b, pos, varint(v)),
    ensures
        dec_varint(b, pos) == Some((v, pos + varint(v).len())),
        varint(v).len() >= 1,
{
    assert(v * 1 == v) by (nonlinear_arith);
    lemma_varint_from(b, pos, v, 1, 0);
}

/// Reading a byte string that was written gives the bytes back.
pub proof fn lemma_string_at(b: Seq<u8>, pos: int, x: Seq<u8>)
    requires
        at(b, pos, enc_string(x)),
        x.len() <= u64::MAX,
    ensures
        dec_string(b, pos) == Some((x, pos + enc_string(x).len())),
{
    lemma_split(b, pos, varint(x.len() as u64), x);
    lemma_varint_at(b, pos, x.len() as u64);
}

/// Reading a level that was written gives the level back.
pub proof fn lemma_level_at(b: Seq<u8>, pos: int, level: usize)
    requires
        at(b, pos, varint(level as u64)),
        level < NUM_LEVELS,
    ensures
        dec_level(b, pos) == Some((level, pos + varint(level as u64).len())),
{
    lemma_varint_at(b, pos, level as u64);
}

/// A field that reads well is one step of reading the fields.
pub proof fn lemma_step(b: Seq<u8>, pos: int, e: EditView, e2: EditView, n: int)
    requires
        0 <= pos,
        n > 0,
        pos + n <= b.len(),
        dec_field(b, pos, e) == Some((e2, pos + n)),
    ensures
        dec_fields(b, pos, e) == dec_fields(b, pos + n, e2),
{
}

/// Whether a compaction pointer can be written: its level exists and the
/// length of its key fits in 64 bits.
pub open spec fn ptr_encodable(p: (usize, Seq<u8>)) -> bool {
    p.0 < NUM_LEVELS && p.1.len() <= u64::MAX
}

/// Whether a deleted file can be written: its level exists.
pub open spec fn deleted_encodable(d: (usize, u64)) -> bool {
    d.0 < NUM_LEVELS
}

/// Whether a new file can be written: its level exists and the lengths of
/// its keys fit in 64 bits.
pub open spec fn new_file_encodable(f: NewFileView) -> bool {
    f.level < NUM_LEVELS && f.smallest.len() <= u64::MAX && f.largest.len() <= u64::MAX
}

/// Reading a compaction pointer that was written takes it in.
pub proof fn lemma_ptr_field(b: Seq<u8>, pos: int, e: EditView, p: (usize, Seq<u8>))
    requires
        at(b, pos, enc_ptr(p)),
        ptr_encodable(p),
    ensures
        enc_ptr(p).len() > 0,
        dec_field(b, pos, e) == Some(
            (EditView { compaction_ptrs: e.compaction_ptrs.push(p), ..e }, pos + enc_ptr(p).len()),
        ),
{
    lemma_split(b, pos, varint(5) + varint(p.0 as u64), enc_string(p.1));
    lemma_split(b, pos, varint(5), varint(p.0 as u64));
    lemma_varint_at(b, pos, 5);
    lemma_level_at(b, pos + varint(5).len(), p.0);
    lemma_string_at(b, pos + varint(5).len() + varint(p.0 as u64).len(), p.1);
}

/// Reading a deleted file that was written takes it in.
pub proof fn lemma_deleted_field(b: Seq<u8>, pos: int, e: EditView, d: (usize, u64))
    requires
        at(b, pos, enc_deleted_file(d)),
        deleted_encodable(d),
    ensures
        enc_deleted_file(d).len() > 0,
        dec_field(b, pos, e) == Some(
            (EditView { deleted: e.deleted.push(d), ..e }, pos + enc_deleted_file(d).len()),
        ),
{
    lemma_split(b, pos, varint(6) + varint(d.0 as u64), varint(d.1));
    lemma_split(b, pos, varint(6), varint(d.0 as u64));
    lemma_varint_at(b, pos, 6);
    lemma_level_at(b, pos + varint(6).len(), d.0);
    lemma_varint_at(b, pos + varint(6).len() + varint(d.0 as u64).len(), d.1);
}

/// Reading a new file that was written takes it in.
pub proof fn lemma_new_file_field(b: Seq<u8>, pos: int, e: EditView, f: NewFileView)
    requires
        at(b, pos, enc_new_file(f)),
        new_file_encodable(f),
    ensures
        enc_new_file(f).len() > 0,
        dec_field(b, pos, e) == Some(
            (EditView { new_files: e.new_files.push(f), ..e }, pos + enc_new_file(f).len()),
        ),
{
    let c1 = varint(7);
    let c2 = varint(f.level as u64);
    let c3 = varint(f.num);
    let c4 = varint(f.size);
    let c5 = enc_string(f.smallest);
    let c6 = enc_string(f.largest);
    lemma_split(b, pos, c1 + c2 + c3 + c4 + c5, c6);
    lemma_split(b, pos, c1 + c2 + c3 + c4, c5);
    lemma_split(b, pos, c1 + c2 + c3, c4);
    lemma_split(b, pos, c1 + c2, c3);
    lemma_split(b, pos, c1, c2);
    lemma_varint_at(b, pos, 7);
    let at1 = pos + c1.len();
    lemma_level_at(b, at1, f.level);
    let at2 = at1 + c2.len();
    lemma_varint_at(b, at2, f.num);
    let at3 = at2 + c3.len();
    lemma_varint_at(b, at3, f.size);
    let at4 = at3 + c4.len();
    lemma_string_at(b, at4, f.smallest);
    let at5 = at4 + c5.len();
    lemma_string_at(b, at5, f.largest);
    assert(dec_new_file(b, at1) == Some((f, at5 + c6.len())));
}

/// `e` with the number field of tag `tag` set to `n`.
pub open spec fn with_number(e: EditView, tag: u64, n: u64) -> EditView {
    if tag == 2 {
        EditView { log_number: Some(n), ..e }
    } else if tag == 9 {
        EditView { prev_log_number: Some(n), ..e }
    } else if tag == 3 {
        EditView { next_file_number: Some(n), ..e }
    } else {
        EditView { last_seq: Some(n), ..e }
    }
}

/// Reading a number field that was written, if one was, takes it in.
pub proof fn lemma_number_chain(b: Seq<u8>, pos: int, e: EditView, tag: u64, v: Option<u64>)
    requires
        at(b, pos, enc_number(tag, v)),
        tag == 2 || tag == 9 || tag == 3 || tag == 4,
    ensures
        dec_fields(b, pos, e) == dec_fields(
            b,
            pos + enc_number(tag, v).len(),
            match v {
                Some(n) => with_number(e, tag, n),
                None => e,
            },
        ),
{
    match v {
        None => {},
        Some(n) => {
            lemma_split(b, pos, varint(tag), varint(n));
            lemma_varint_at(b, pos, tag);
            lemma_varint_at(b, pos + varint(tag).len(), n);
            lemma_step(b, pos, e, with_number(e, tag, n), enc_number(tag, v).len() as int);
        },
    }
}

/// Reading the comparator field that was written, if one was, takes it in.
pub proof fn lemma_comparator_chain(b: Seq<u8>, pos: int, e: EditView, name: Option<Seq<u8>>)
    requires
        at(b, pos, enc_comparator(name)),
        name.is_some() ==> name.unwrap().len() <= u64::MAX,
    ensures
        dec_fields(b, pos, e) == dec_fields(
            b,
            pos + enc_comparator(name).len(),
            match name {
                Some(n) => EditView { comparator: Some(n), ..e },
                None => e,
            },
        ),
{
    match name {
        None => {},
        Some(n) => {
            lemma_split(b, pos, varint(1), enc_string(n));
            lemma_varint_at(b, pos, 1);
            lemma_string_at(b, pos + varint(1).len(), n);
            lemma_step(
                b,
                pos,
                e,
                EditView { comparator: Some(n), ..e },
                enc_comparator(name).len() as int,
            );
        },
    }
}

/// The encoding of the first `n` compaction pointers begins the encoding of the first
/// `m`.
pub proof fn lemma_ptrs_prefix(list: Seq<(usize, Seq<u8>)>, n: int, m: int)
    requires
        0 <= n <= m <= list.len(),
    ensures
        enc_ptrs(list, n).len() <= enc_ptrs(list, m).len(),
        enc_ptrs(list, m).subrange(0, enc_ptrs(list, n).len() as int) == enc_ptrs(list, n),
    decreases m - n,
{
    if n == m {
        assert(enc_ptrs(list, m).subrange(0, enc_ptrs(list, n).len() as int) =~= enc_ptrs(
            list,
            n,
        ));
    } else {
        lemma_ptrs_prefix(list, n, m - 1);
        assert(enc_ptrs(list, m).subrange(0, enc_ptrs(list, n).len() as int) =~= enc_ptrs(
            list,
            m - 1,
        ).subrange(0, enc_ptrs(list, n).len() as int));
    }
}

/// Reading the encoded compaction pointers one by one takes each of them in.
pub proof fn lemma_ptrs_chain(b: Seq<u8>, pos0: int, s0: EditView, list: Seq<(usize, Seq<u8>)>, n: int)
    requires
        0 <= n <= list.len(),
        at(b, pos0, enc_ptrs(list, list.len() as int)),
        forall|k: int| 0 <= k < list.len() ==> ptr_encodable(#[trigger] list[k]),
    ensures
        enc_ptrs(list, n).len() <= enc_ptrs(list, list.len() as int).len(),
        dec_fields(b, pos0, s0) == dec_fields(
            b,
            pos0 + enc_ptrs(list, n).len(),
            EditView { compaction_ptrs: s0.compaction_ptrs + list.subrange(0, n), ..s0 },
        ),
    decreases n,
{
    lemma_ptrs_prefix(list, n, list.len() as int);
    if n == 0 {
        assert(s0.compaction_ptrs + list.subrange(0, 0) =~= s0.compaction_ptrs);
    } else {
        lemma_ptrs_chain(b, pos0, s0, list, n - 1);
        lemma_ptrs_prefix(list, n - 1, list.len() as int);
        let all = enc_ptrs(list, list.len() as int);
        let before = enc_ptrs(list, n - 1);
        let one = enc_ptr(list[n - 1]);
        let q = pos0 + before.len();
        let s1 = EditView { compaction_ptrs: s0.compaction_ptrs + list.subrange(0, n - 1), ..s0 };
        let s2 = EditView { compaction_ptrs: s0.compaction_ptrs + list.subrange(0, n), ..s0 };
        assert(all.subrange(before.len() as int, (before.len() + one.len()) as int) =~= one) by {
            assert(all.subrange(0, (before + one).len() as int) == before + one);
            assert(all.subrange(before.len() as int, (before.len() + one.len()) as int) =~= (before
                + one).subrange(before.len() as int, (before.len() + one.len()) as int));
        }
        lemma_sub_at(b, pos0, all, before.len() as int, one);
        lemma_ptr_field(b, q, s1, list[n - 1]);
        assert(s1.compaction_ptrs.push(list[n - 1]) =~= s2.compaction_ptrs);
        lemma_step(b, q, s1, s2, one.len() as int);
    }
}

/// The encoding of the first `n` deleted files begins the encoding of the first
/// `m`.
pub proof fn lemma_deleted_prefix(list: Seq<(usize, u64)>, n: int, m: int)
    requires
        0 <= n <= m <= list.len(),
    ensures
        enc_deleted(list, n).len() <= enc_deleted(list, m).len(),
        enc_deleted(list, m).subrange(0, enc_deleted(list, n).len() as int) == enc_deleted(list, n),
    decreases m - n,
{
    if n == m {
        assert(enc_deleted(list, m).subrange(0, enc_deleted(list, n).len() as int) =~= enc_deleted(
            list,
            n,
        ));
    } else {
        lemma_deleted_prefix(list, n, m - 1);
        assert(enc_deleted(list, m).subrange(0, enc_deleted(list, n).len() as int) =~= enc_deleted(
            list,
            m - 1,
        ).subrange(0, enc_deleted(list, n).len() as int));
    }
}

/// Reading the encoded deleted files one by one takes each of them in.
pub proof fn lemma_deleted_chain(b: Seq<u8>, pos0: int, s0: EditView, list: Seq<(usize, u64)>, n: int)
    requires
        0 <= n <= list.len(),
        at(b, pos0, enc_deleted(list, list.len() as int)),
        forall|k: int| 0 <= k < list.len() ==> deleted_encodable(#[trigger] list[k]),
    ensures
        enc_deleted(list, n).len() <= enc_deleted(list, list.len() as int).len(),
        dec_fields(b, pos0, s0) == dec_fields(
            b,
            pos0 + enc_deleted(list, n).len(),
            EditView { deleted: s0.deleted + list.subrange(0, n), ..s0 },
        ),
    decreases n,
{
    lemma_deleted_prefix(list, n, list.len() as int);
    if n == 0 {
        assert(s0.deleted + list.subrange(0, 0) =~= s0.deleted);
    } else {
        lemma_deleted_chain(b, pos0, s0, list, n - 1);
        lemma_deleted_prefix(list, n - 1, list.len() as int);
        let all = enc_deleted(list, list.len() as int);
        let before = enc_deleted(list, n - 1);
        let one = enc_deleted_file(list[n - 1]);
        let q = pos0 + before.len();
        let s1 = EditView { deleted: s0.deleted + list.subrange(0, n - 1), ..s0 };
        let s2 = EditView { deleted: s0.deleted + list.subrange(0, n), ..s0 };
        assert(all.subrange(before.len() as int, (before.len() + one.len()) as int) =~= one) by {
            assert(all.subrange(0, (before + one).len() as int) == before + one);
            assert(all.subrange(before.len() as int, (before.len() + one.len()) as int) =~= (before
                + one).subrange(before.len() as int, (before.len() + one.len()) as int));
        }
        lemma_sub_at(b, pos0, all, before.len() as int, one);
        lemma_deleted_field(b, q, s1, list[n - 1]);
        assert(s1.deleted.push(list[n - 1]) =~= s2.deleted);
        lemma_step(b, q, s1, s2, one.len() as int);
    }
}

/// The encoding of the first `n` new files begins the encoding of the first
/// `m`.
pub proof fn lemma_new_files_prefix(list: Seq<NewFileView>, n: int, m: int)
    requires
        0 <= n <= m <= list.len(),
    ensures
        enc_new_files(list, n).len() <= enc_new_files(list, m).len(),
        enc_new_files(list, m).subrange(0, enc_new_files(list, n).len() as int) == enc_new_files(list, n),
    decreases m - n,
{
    if n == m {
        assert(enc_new_files(list, m).subrange(0, enc_new_files(list, n).len() as int) =~= enc_new_files(
            list,
            n,
        ));
    } else {
        lemma_new_files_prefix(list, n, m - 1);
        assert(enc_new_files(list, m).subrange(0, enc_new_files(list, n).len() as int) =~= enc_new_files(
            list,
            m - 1,
        ).subrange(0, enc_new_files(list, n).len() as int));
    }
}

/// Reading the encoded new files one by one takes each of them in.
pub proof fn lemma_new_files_chain(b: Seq<u8>, pos0: int, s0: EditView, list: Seq<NewFileView>, n: int)
    requires
        0 <= n <= list.len(),
        at(b, pos0, enc_new_files(list, list.len() as int)),
        forall|k: int| 0 <= k < list.len() ==> new_file_encodable(#[trigger] list[k]),
    ensures
        enc_new_files(list, n).len() <= enc_new_files(list, list.len() as int).len(),
        dec_fields(b, pos0, s0) == dec_fields(
            b,
            pos0 + enc_new_files(list, n).len(),
            EditView { new_files: s0.new_files + list.subrange(0, n), ..s0 },
        ),
    decreases n,
{
    lemma_new_files_prefix(list, n, list.len() as int);
    if n == 0 {
        assert(s0.new_files + list.subrange(0, 0) =~= s0.new_files);
    } else {
        lemma_new_files_chain(b, pos0, s0, list, n - 1);
        lemma_new_files_prefix(list, n - 1, list.len() as int);
        let all = enc_new_files(list, list.len() as int);
        let before = enc_new_files(list, n - 1);
        let one = enc_new_file(list[n - 1]);
        let q = pos0 + before.len();
        let s1 = EditView { new_files: s0.new_files + list.subrange(0, n - 1), ..s0 };
        let s2 = EditView { new_files: s0.new_files + list.subrange(0, n), ..s0 };
        assert(all.subrange(before.len() as int, (before.len() + one.len()) as int) =~= one) by {
            assert(all.subrange(0, (before + one).len() as int) == before + one);
            assert(all.subrange(before.len() as int, (before.len() + one.len()) as int) =~= (before
                + one).subrange(before.len() as int, (before.len() + one.len()) as int));
        }
        lemma_sub_at(b, pos0, all, before.len() as int, one);
        lemma_new_file_field(b, q, s1, list[n - 1]);
        assert(s1.new_files.push(list[n - 1]) =~= s2.new_files);
        lemma_step(b, q, s1, s2, one.len() as int);
    }
}

impl EditView {
    /// Whether the edit can be written: every level that it names exists,
    /// and the length of every byte string in it fits in 64 bits.
    pub open spec fn encodable(self) -> bool {
        &&& self.comparator.is_some() ==> self.comparator.unwrap().len() <= u64::MAX
        &&& forall|k: int|
            0 <= k < self.compaction_ptrs.len() ==> ptr_encodable(#[trigger] self.compaction_ptrs[k])
        &&& forall|k: int| 0 <= k < self.deleted.len() ==> deleted_encodable(#[trigger] self.deleted[k])
        &&& forall|k: int|
            0 <= k < self.new_files.len() ==> new_file_encodable(#[trigger] self.new_files[k])
    }
}

/// Writing an edit and reading the record back gives the edit: every field
/// that was set, with its value, and every list entry, in order.
pub proof fn lemma_edit_roundtrip(e: EditView)
    requires
        e.encodable(),
    ensures
        dec_edit(enc_edit(e)) == Some(e),
{
    let b = enc_edit(e);
    let c0 = enc_comparator(e.comparator);
    let c1 = enc_number(2, e.log_number);
    let c2 = enc_number(9, e.prev_log_number);
    let c3 = enc_number(3, e.next_file_number);
    let c4 = enc_number(4, e.last_seq);
    let c5 = enc_ptrs(e.compaction_ptrs, e.compaction_ptrs.len() as int);
    let c6 = enc_deleted(e.deleted, e.deleted.len() as int);
    let c7 = enc_new_files(e.new_files, e.new_files.len() as int);
    assert(b == c0 + c1 + c2 + c3 + c4 + c5 + c6 + c7);
    assert(b.subrange(0, b.len() as int) =~= b);
    lemma_split(b, 0, c0 + c1 + c2 + c3 + c4 + c5 + c6, c7);
    lemma_split(b, 0, c0 + c1 + c2 + c3 + c4 + c5, c6);
    lemma_split(b, 0, c0 + c1 + c2 + c3 + c4, c5);
    lemma_split(b, 0, c0 + c1 + c2 + c3, c4);
    lemma_split(b, 0, c0 + c1 + c2, c3);
    lemma_split(b, 0, c0 + c1, c2);
    lemma_split(b, 0, c0, c1);
    let s0 = EditView::empty();
    let at1 = c0.len() as int;
    let s1 = EditView { comparator: e.comparator, ..s0 };
    lemma_comparator_chain(b, 0, s0, e.comparator);
    let at2 = at1 + c1.len();
    let s2 = EditView { log_number: e.log_number, ..s1 };
    lemma_number_chain(b, at1, s1, 2, e.log_number);
    let at3 = at2 + c2.len();
    let s3 = EditView { prev_log_number: e.prev_log_number, ..s2 };
    lemma_number_chain(b, at2, s2, 9, e.prev_log_number);
    let at4 = at3 + c3.len();
    let s4 = EditView { next_file_number: e.next_file_number, ..s3 };
    lemma_number_chain(b, at3, s3, 3, e.next_file_number);
    let at5 = at4 + c4.len();
    let s5 = EditView { last_seq: e.last_seq, ..s4 };
    lemma_number_chain(b, at4, s4, 4, e.last_seq);
    assert(dec_fields(b, 0, s0) == dec_fields(b, at5, s5));
    let at6 = at5 + c5.len();
    let s6 = EditView { compaction_ptrs: e.compaction_ptrs, ..s5 };
    lemma_ptrs_chain(b, at5, s5, e.compaction_ptrs, e.compaction_ptrs.len() as int);
    assert(s5.compaction_ptrs + e.compaction_ptrs.subrange(0, e.compaction_ptrs.len() as int)
        =~= e.compaction_ptrs);
    let at7 = at6 + c6.len();
    let s7 = EditView { deleted: e.deleted, ..s6 };
    lemma_deleted_chain(b, at6, s6, e.deleted, e.deleted.len() as int);
    assert(s6.deleted + e.deleted.subrange(0, e.deleted.len() as int) =~= e.deleted);
    let s8 = EditView { new_files: e.new_files, ..s7 };
    lemma_new_files_chain(b, at7, s7, e.new_files, e.new_files.len() as int);
    assert(s7.new_files + e.new_files.subrange(0, e.new_files.len() as int) =~= e.new_files);
    assert(dec_fields(b, 0, s0) == dec_fields(b, at7 + c7.len(), s8));
    assert(at7 + c7.len() == b.len());
    assert(s8 == e);
}

} // verus!
