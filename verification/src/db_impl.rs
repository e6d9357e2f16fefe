//! The database's own bookkeeping: what a merge has produced so far, what
//! recovery and the sweep of obsolete files decide, and the counters of the
//! write path.

use vstd::prelude::*;
use crate::compaction::{input_deletions, Compaction};
use crate::drop_rules::{track_after, track_start, verdict_at, KeyTracker, Verdict};
use crate::filenames::{table_file_name, table_name, FileType};
use crate::key_types::{copy_bytes, decode_fixed64, extract_user_key, le_u64, user_key_of};
use crate::snapshot::{Snapshot, SnapshotList};
use crate::types::{Options, Status, StatusCode, NUM_LEVELS};
use crate::key_types::{internal_le, lemma_internal_order};
use crate::version::{
    metas, numbers, total_file_size, total_size, FileMetaData, FileMetaView, FileNum, Lookup,
};
use crate::version_edit::{enc_edit, new_file_view, EditView, NewFileView, VersionEdit};
use crate::version_set::{actions_view, ActionView, ManifestAction, VersionSet};

verus! {

/// What compactions at one level have cost.
#[derive(Clone, Copy, Debug, PartialEq, Eq, Structural)]
pub struct CompactionStats {
    /// Microseconds spent.
    pub micros: u64,
    /// Bytes read.
    pub read: u64,
    /// Bytes written.
    pub written: u64,
}

/// The sum of two counters, held at the largest number that 64 bits hold.
pub open spec fn capped_sum(a: u64, b: u64) -> u64 {
    if a + b > u64::MAX {
        u64::MAX
    } else {
        (a + b) as u64
    }
}

impl Default for CompactionStats {
    fn default() -> (r: CompactionStats)
        ensures
            r == (CompactionStats { micros: 0, read: 0, written: 0 }),
    {
        CompactionStats { micros: 0, read: 0, written: 0 }
    }
}

impl CompactionStats {
    /// Adds the costs `cs` to these.
    pub fn add(&mut self, cs: CompactionStats)
        ensures
            *final(self) == (CompactionStats {
                micros: capped_sum(old(self).micros, cs.micros),
                read: capped_sum(old(self).read, cs.read),
                written: capped_sum(old(self).written, cs.written),
            }),
    {
        self.micros = self.micros.saturating_add(cs.micros);
        self.read = self.read.saturating_add(cs.read);
        self.written = self.written.saturating_add(cs.written);
    }
}

/// `total` where it fits in 64 bits, the largest such number where not.
pub fn cap_u64(total: u128) -> (r: u64)
    ensures
        r == if total > u64::MAX {
            u64::MAX
        } else {
            total as u64
        },
{
    if total > u64::MAX as u128 {
        u64::MAX
    } else {
        total as u64
    }
}

/// What to do with one input entry of a merge.
#[derive(Clone, Copy, Debug, PartialEq, Eq, Structural)]
pub struct Step {
    /// Whether the output under way ends before this entry.
    pub finish_before: bool,
    /// What becomes of the entry.
    pub verdict: Verdict,
}

/// The working state of a merge: the outputs produced so far and the output
/// under way.
#[derive(Debug)]
pub struct CompactionState {
    /// The merge that is carried out.
    pub compaction: Compaction,
    /// The sequence number at or below which obsolete entries may go.
    pub smallest_seq: u64,
    /// The output files so far; the last is the one under way, if any is.
    pub outputs: Vec<FileMetaData>,
    /// Whether an output file is under way.
    pub builder_open: bool,
    /// Entries written to the output under way.
    pub builder_entries: u64,
    /// Bytes of the outputs that are finished.
    pub total_bytes: u128,
    /// The memory of the rules that drop entries.
    pub tracker: KeyTracker,
}

impl CompactionState {
    /// The outputs that are finished: all but the one under way.
    pub open spec fn finished(&self) -> Seq<FileMetaView> {
        if self.builder_open {
            metas(self.outputs@).drop_last()
        } else {
            metas(self.outputs@)
        }
    }

    /// The merge is well-formed, an output under way is listed, and the
    /// bytes counted are those of the finished outputs.
    pub open spec fn wf(&self) -> bool {
        &&& self.compaction.wf()
        &&& self.builder_open ==> self.outputs@.len() > 0
        &&& self.total_bytes == total_size(self.finished())
    }

    /// The user keys that no level below the merge's output level can hold.
    pub open spec fn base_keys(&self) -> Set<Seq<u8>> {
        Set::new(|u: Seq<u8>| self.compaction.base_level_for(u))
    }

    /// The state before the first entry.
    pub fn new(c: Compaction) -> (r: CompactionState)
        requires
            c.wf(),
        ensures
            r.wf(),
            r.compaction == c,
            r.smallest_seq == 0,
            r.outputs@.len() == 0,
            !r.builder_open,
            r.total_bytes == 0,
            r.tracker@ == track_start(),
    {
        CompactionState {
            compaction: c,
            smallest_seq: 0,
            outputs: Vec::new(),
            builder_open: false,
            builder_entries: 0,
            total_bytes: 0,
            tracker: KeyTracker::new(),
        }
    }

    /// The output file produced last.
    pub fn current_output(&self) -> (r: &FileMetaData)
        requires
            self.outputs@.len() > 0,
        ensures
            *r == self.outputs@.last(),
    {
        &self.outputs[self.outputs.len() - 1]
    }

    /// Gives up a merge that failed. Returns the names of the files of its
    /// outputs under the database `name`, which are to be removed. The state
    /// is used up and its edit with it: nothing is installed, so the version
    /// stays as it is and the inputs stay live.
    pub fn abandon(self, name: &str) -> (r: Vec<String>)
        ensures
            r@.len() == self.outputs@.len(),
            forall|i: int|
                0 <= i < r@.len() ==> (#[trigger] r@[i])@ == table_name(
                    name@,
                    self.outputs@[i].num,
                ),
    {
        let mut cs = self;
        cs.cleanup(name)
    }

    /// Gives up the outputs after a merge that failed: returns the names of
    /// their files under the database `name`, which are to be removed, and
    /// forgets them.
    pub fn cleanup(&mut self, name: &str) -> (r: Vec<String>)
        ensures
            final(self).outputs@.len() == 0,
            !final(self).builder_open,
            r@.len() == old(self).outputs@.len(),
            forall|i: int|
                0 <= i < r@.len() ==> (#[trigger] r@[i])@ == table_name(
                    name@,
                    old(self).outputs@[i].num,
                ),
            final(self).compaction == old(self).compaction,
            final(self).smallest_seq == old(self).smallest_seq,
            final(self).total_bytes == 0,
    {
        let mut names: Vec<String> = Vec::new();
        let mut i: usize = 0;
        while i < self.outputs.len()
            invariant
                i <= self.outputs@.len(),
                *self == *old(self),
                names@.len() == i,
                forall|k: int|
                    0 <= k < i ==> (#[trigger] names@[k])@ == table_name(
                        name@,
                        self.outputs@[k].num,
                    ),
            decreases self.outputs.len() - i,
        {
            names.push(table_file_name(name, self.outputs[i].num));
            i += 1;
        }
        self.outputs.clear();
        self.builder_open = false;
        self.total_bytes = 0;
        names
    }

    /// Fixes the sequence number at or below which obsolete entries may go:
    /// that of the oldest live snapshot, or `last_seq` where none is live.
    pub fn begin(&mut self, snaps: &SnapshotList, last_seq: u64)
        ensures
            *final(self) == (CompactionState {
                smallest_seq: if snaps@.len() == 0 {
                    last_seq
                } else {
                    snaps@[0]
                },
                ..*old(self)
            }),
    {
        self.smallest_seq = snaps.smallest_seq(last_seq);
    }

    /// Decides on the next input entry, whose internal key is `ikey`: whether
    /// the output under way ends before it, because it would overlap too much
    /// of the level after next, and whether the entry is written, dropped or
    /// passed over.
    pub fn next(&mut self, ikey: &[u8]) -> (r: Step)
        requires
            old(self).wf(),
        ensures
            final(self).wf(),
            r.verdict == crate::drop_rules::verdict(
                old(self).tracker@,
                ikey@,
                old(self).smallest_seq,
                old(self).compaction.base_level_for(user_key_of(ikey@)),
            ),
            final(self).tracker@ == crate::drop_rules::track_next(
                old(self).tracker@,
                ikey@,
                old(self).smallest_seq,
                old(self).compaction.base_level_for(user_key_of(ikey@)),
            ),
            r.finish_before == (old(self).builder_open && old(self).compaction.stops_before(
                ikey@,
            )),
            final(self).smallest_seq == old(self).smallest_seq,
            final(self).outputs == old(self).outputs,
            final(self).builder_open == old(self).builder_open,
            final(self).builder_entries == old(self).builder_entries,
            final(self).total_bytes == old(self).total_bytes,
            final(self).compaction.deeper == old(self).compaction.deeper,
            final(self).compaction.level == old(self).compaction.level,
            final(self).compaction.inputs0 == old(self).compaction.inputs0,
            final(self).compaction.inputs1 == old(self).compaction.inputs1,
            final(self).compaction.grandparents == old(self).compaction.grandparents,
            final(self).compaction.max_grandparent_overlap_bytes == old(
                self,
            ).compaction.max_grandparent_overlap_bytes,
            final(self).compaction.edit == old(self).compaction.edit,
            final(self).compaction.seen_key,
            final(self).compaction.grandparent_ix == crate::compaction::first_not_before(
                metas(old(self).compaction.grandparents@),
                old(self).compaction.grandparent_ix as int,
                ikey@,
            ),
            final(self).compaction.overlapped_bytes == if old(self).compaction.stops_before(ikey@) {
                0
            } else {
                old(self).compaction.overlap_before(ikey@)
            },
    {
        let stop = self.compaction.should_stop_before(ikey);
        let base = self.compaction.is_base_level_for(extract_user_key(ikey));
        let verdict = self.tracker.judge(ikey, self.smallest_seq, base);
        Step { finish_before: stop && self.builder_open, verdict }
    }

    /// Judges every entry of `keys` in order, from the memory as it stands.
    pub fn judge_all(&mut self, keys: &Vec<Vec<u8>>) -> (r: Vec<Verdict>)
        requires
            old(self).tracker@ == track_start(),
        ensures
            r@.len() == keys@.len(),
            forall|i: int|
                0 <= i < keys@.len() ==> #[trigger] r@[i] == verdict_at(
                    keys_view(keys@),
                    i,
                    old(self).smallest_seq,
                    old(self).base_keys(),
                ),
            final(self).tracker@ == track_after(
                keys_view(keys@),
                keys@.len() as int,
                old(self).smallest_seq,
                old(self).base_keys(),
            ),
            final(self).compaction == old(self).compaction,
            final(self).smallest_seq == old(self).smallest_seq,
            final(self).outputs == old(self).outputs,
            final(self).builder_open == old(self).builder_open,
    {
        let mut out: Vec<Verdict> = Vec::new();
        let ghost kv = keys_view(keys@);
        let ghost base = self.base_keys();
        let mut i: usize = 0;
        while i < keys.len()
            invariant
                i <= keys@.len(),
                kv == keys_view(keys@),
                base == old(self).base_keys(),
                self.compaction == old(self).compaction,
                self.smallest_seq == old(self).smallest_seq,
                self.outputs == old(self).outputs,
                self.builder_open == old(self).builder_open,
                out@.len() == i,
                self.tracker@ == track_after(kv, i as int, self.smallest_seq, base),
                forall|k: int|
                    0 <= k < i ==> #[trigger] out@[k] == verdict_at(
                        kv,
                        k,
                        self.smallest_seq,
                        base,
                    ),
            decreases keys.len() - i,
        {
            let ikey = keys[i].as_slice();
            assert(ikey@ == kv[i as int]);
            let b = self.compaction.is_base_level_for(extract_user_key(ikey));
            assert(b == base.contains(user_key_of(kv[i as int])));
            let v = self.tracker.judge(ikey, self.smallest_seq, b);
            out.push(v);
            i += 1;
        }
        out
    }

    /// Opens the next output file, with the number `fnum`.
    pub fn open_output(&mut self, fnum: FileNum)
        requires
            old(self).wf(),
            !old(self).builder_open,
        ensures
            final(self).wf(),
            final(self).builder_open,
            final(self).builder_entries == 0,
            metas(final(self).outputs@) == metas(old(self).outputs@).push(
                FileMetaView {
                    allowed_seeks: 0,
                    num: fnum,
                    size: 0,
                    smallest: Seq::empty(),
                    largest: Seq::empty(),
                },
            ),
            final(self).compaction == old(self).compaction,
            final(self).smallest_seq == old(self).smallest_seq,
            final(self).total_bytes == old(self).total_bytes,
            final(self).tracker == old(self).tracker,
    {
        let mut fmd = FileMetaData::new();
        fmd.num = fnum;
        let ghost fv = fmd@;
        self.outputs.push(fmd);
        self.builder_open = true;
        self.builder_entries = 0;
        assert(metas(self.outputs@) =~= metas(old(self).outputs@).push(fv));
        assert(metas(self.outputs@).drop_last() =~= metas(old(self).outputs@));
    }

    /// Records that the entry `ikey` went to the output under way, whose
    /// size is then estimated at `size_estimate`. The first entry of an
    /// output gives its smallest key, the last its largest; where the
    /// entries come in internal-key order, the smallest key does not sort
    /// behind the largest. Returns whether the output is to end here: its
    /// size exceeds `max_file_size`.
    pub fn wrote(&mut self, ikey: &[u8], size_estimate: u64, max_file_size: u64) -> (r: bool)
        requires
            old(self).wf(),
            old(self).builder_open,
        ensures
            final(self).wf(),
            r == (size_estimate > max_file_size),
            final(self).builder_open,
            final(self).builder_entries == capped_sum(old(self).builder_entries, 1),
            metas(final(self).outputs@) == metas(old(self).outputs@).update(
                old(self).outputs@.len() - 1,
                FileMetaView {
                    smallest: if old(self).builder_entries == 0 {
                        ikey@
                    } else {
                        old(self).outputs@.last()@.smallest
                    },
                    largest: ikey@,
                    ..old(self).outputs@.last()@
                },
            ),
            final(self).compaction == old(self).compaction,
            final(self).smallest_seq == old(self).smallest_seq,
            final(self).total_bytes == old(self).total_bytes,
            final(self).tracker == old(self).tracker,
            numbers(metas(final(self).outputs@)) == numbers(metas(old(self).outputs@)),
            in_key_order(old(self).outputs@.last()@, old(self).builder_entries, ikey@)
                ==> internal_le(
                final(self).outputs@.last()@.smallest,
                final(self).outputs@.last()@.largest,
            ),
    {
        let ghost before = metas(self.outputs@);
        let mut last = self.outputs.pop().unwrap();
        let ghost lv = last@;
        proof {
            lemma_internal_order(ikey@, ikey@, ikey@);
            lemma_internal_order(lv.smallest, lv.largest, ikey@);
        }
        if self.builder_entries == 0 {
            last.smallest = copy_bytes(ikey);
        }
        last.largest = copy_bytes(ikey);
        let ghost nv = last@;
        self.outputs.push(last);
        self.builder_entries = self.builder_entries.saturating_add(1);
        assert(metas(self.outputs@) =~= before.update(before.len() - 1, nv));
        assert(metas(self.outputs@).drop_last() =~= before.drop_last());
        assert(numbers(metas(self.outputs@)) =~= numbers(before));
        assert(self.outputs@.last()@ == nv);
        size_estimate > max_file_size
    }

    /// Records that the output under way is finished and holds `bytes`
    /// bytes, which are added to the bytes counted. Returns whether it holds
    /// entries, in which case the new table must be opened once to see that
    /// it can be read.
    pub fn finish_output(&mut self, bytes: u64) -> (r: bool)
        requires
            old(self).wf(),
            old(self).builder_open,
        ensures
            final(self).wf(),
            r == (old(self).builder_entries > 0),
            !final(self).builder_open,
            final(self).total_bytes == old(self).total_bytes + bytes,
            final(self).total_bytes == total_size(metas(final(self).outputs@)),
            numbers(metas(final(self).outputs@)) == numbers(metas(old(self).outputs@)),
            metas(final(self).outputs@) == metas(old(self).outputs@).update(
                old(self).outputs@.len() - 1,
                FileMetaView { size: bytes, ..old(self).outputs@.last()@ },
            ),
            final(self).compaction == old(self).compaction,
            final(self).smallest_seq == old(self).smallest_seq,
            final(self).tracker == old(self).tracker,
    {
        let ghost before = metas(self.outputs@);
        let mut last = self.outputs.pop().unwrap();
        last.size = bytes;
        let ghost nv = last@;
        self.outputs.push(last);
        let n: usize = self.outputs.len();
        proof {
            crate::compaction::lemma_total_size_bound(before.drop_last());
            assert(before.drop_last().len() < n);
            assert(old(self).total_bytes == total_size(before.drop_last()));
            assert(metas(self.outputs@) =~= before.update(before.len() - 1, nv));
            assert(metas(self.outputs@).drop_last() =~= before.drop_last());
            assert(numbers(metas(self.outputs@)) =~= numbers(before));
        }
        self.total_bytes = self.total_bytes + bytes as u128;
        self.builder_open = false;
        self.builder_entries > 0
    }

    /// What the merge has cost: the bytes of its inputs as read, those of
    /// its outputs as written, each held at the largest number that 64 bits
    /// hold.
    pub fn stats(&self, micros: u64) -> (r: CompactionStats)
        ensures
            r.micros == micros,
            r.read as int == if total_size(metas(self.compaction.inputs0@)) + total_size(
                metas(self.compaction.inputs1@),
            ) > u64::MAX {
                u64::MAX as int
            } else {
                total_size(metas(self.compaction.inputs0@)) + total_size(
                    metas(self.compaction.inputs1@),
                )
            },
            r.written as int == if total_size(metas(self.outputs@)) > u64::MAX {
                u64::MAX as int
            } else {
                total_size(metas(self.outputs@))
            },
    {
        let read = total_file_size(&self.compaction.inputs0).saturating_add(
            total_file_size(&self.compaction.inputs1),
        );
        proof {
            crate::compaction::lemma_total_size_bound(metas(self.compaction.inputs0@));
            crate::compaction::lemma_total_size_bound(metas(self.compaction.inputs1@));
            crate::compaction::lemma_total_size_bound(metas(self.outputs@));
        }
        CompactionStats {
            micros,
            read: cap_u64(read),
            written: cap_u64(total_file_size(&self.outputs)),
        }
    }
}

/// The keys of a list, as plain values.
pub open spec fn keys_view(keys: Seq<Vec<u8>>) -> Seq<Seq<u8>> {
    Seq::new(keys.len(), |i: int| keys[i]@)
}

/// Whether the entry `ikey` comes in internal-key order behind what the
/// output `f` holds after `entries` entries: the output is empty, or its keys
/// are in order and its largest key does not sort behind `ikey`.
pub open spec fn in_key_order(f: FileMetaView, entries: u64, ikey: Seq<u8>) -> bool {
    entries == 0 || (internal_le(f.smallest, f.largest) && internal_le(f.largest, ikey))
}

/// Whether the file numbers `nums` ascend strictly and lie from `from` on
/// and below `below`.
pub open spec fn numbered(nums: Seq<u64>, from: u64, below: u64) -> bool {
    &&& forall|i: int| 0 <= i < nums.len() ==> from <= #[trigger] nums[i] < below
    &&& forall|i: int, j: int| 0 <= i < j < nums.len() ==> #[trigger] nums[i] < #[trigger] nums[j]
}

/// The edit that installs the state of a merge that ran to its end.
pub open spec fn installs(cs: &CompactionState) -> EditView {
    EditView {
        deleted: cs.compaction.edit@.deleted + input_deletions(
            cs.compaction.level,
            metas(cs.compaction.inputs0@),
        ) + input_deletions((cs.compaction.level + 1) as usize, metas(cs.compaction.inputs1@)),
        new_files: cs.compaction.edit@.new_files + outputs_at(
            (cs.compaction.level + 1) as usize,
            metas(cs.outputs@),
        ),
        ..cs.compaction.edit@
    }
}

/// The edit that installs a merge whose own edit names no file, as that of
/// a merge that the version set picked does: it deletes exactly the inputs
/// at both levels and adds exactly the outputs one level down, each with its
/// number, size and keys. Where the numbers of the inputs and outputs are
/// below `next`, so is every file number in the edit.
pub proof fn lemma_merge_edit(cs: &CompactionState, next: u64)
    requires
        cs.compaction.edit@.deleted.len() == 0,
        cs.compaction.edit@.new_files.len() == 0,
    ensures
        installs(cs).deleted == input_deletions(
            cs.compaction.level,
            metas(cs.compaction.inputs0@),
        ) + input_deletions((cs.compaction.level + 1) as usize, metas(cs.compaction.inputs1@)),
        installs(cs).new_files == outputs_at(
            (cs.compaction.level + 1) as usize,
            metas(cs.outputs@),
        ),
        (forall|i: int|
            0 <= i < cs.compaction.inputs0@.len() ==> (#[trigger] cs.compaction.inputs0@[i]).num
                < next) && (forall|i: int|
            0 <= i < cs.compaction.inputs1@.len() ==> (#[trigger] cs.compaction.inputs1@[i]).num
                < next) && (forall|i: int|
            0 <= i < cs.outputs@.len() ==> (#[trigger] cs.outputs@[i]).num < next) ==> (forall|
            i: int,
        |
            0 <= i < installs(cs).deleted.len() ==> (#[trigger] installs(cs).deleted[i]).1 < next)
            && (forall|i: int|
            0 <= i < installs(cs).new_files.len() ==> (#[trigger] installs(cs).new_files[i]).num
                < next),
{
    let e = installs(cs);
    let d0 = input_deletions(cs.compaction.level, metas(cs.compaction.inputs0@));
    let d1 = input_deletions((cs.compaction.level + 1) as usize, metas(cs.compaction.inputs1@));
    assert(e.deleted =~= d0 + d1);
    assert(e.new_files =~= outputs_at((cs.compaction.level + 1) as usize, metas(cs.outputs@)));
    assert forall|i: int| 0 <= i < e.deleted.len() implies (#[trigger] e.deleted[i]).1
        == if i < d0.len() {
        cs.compaction.inputs0@[i].num
    } else {
        cs.compaction.inputs1@[i - d0.len()].num
    } by {}
    assert forall|i: int| 0 <= i < e.new_files.len() implies (#[trigger] e.new_files[i]).num
        == cs.outputs@[i].num by {}
}

/// The files of `outputs` as an edit lists them when it adds them to
/// `level`.
pub open spec fn outputs_at(level: usize, outputs: Seq<FileMetaView>) -> Seq<NewFileView> {
    Seq::new(outputs.len(), |i: int| new_file_view(level, outputs[i]))
}

/// The edit that installs the result of a merge: every input file leaves its
/// level, every output file joins the level below the one compacted.
pub fn install_compaction_results(cs: CompactionState) -> (r: VersionEdit)
    requires
        cs.wf(),
    ensures
        r@ == installs(&cs),
{
    let mut cs = cs;
    let ghost given = cs.compaction.edit@;
    cs.compaction.add_input_deletions();
    let ghost mid = cs.compaction.edit@;
    let level: usize = cs.compaction.level + 1;
    let mut edit = cs.compaction.edit;
    let outputs = cs.outputs;
    let mut i: usize = 0;
    while i < outputs.len()
        invariant
            i <= outputs@.len(),
            edit@ == (EditView {
                new_files: given.new_files + outputs_at(level, metas(outputs@).subrange(0, i as int)),
                ..mid
            }),
        decreases outputs.len() - i,
    {
        edit.add_file(level, outputs[i].copy());
        i += 1;
        assert(edit@.new_files =~= given.new_files + outputs_at(
            level,
            metas(outputs@).subrange(0, i as int),
        ));
    }
    assert(metas(outputs@).subrange(0, i as int) =~= metas(outputs@));
    edit
}

/// The descriptor of a table that was built from `keys`, the internal keys of
/// its entries in order, as file `num` of `size` bytes: the first key is its
/// smallest, the last its largest. A table without entries has the empty
/// descriptor.
pub fn table_meta(keys: &Vec<Vec<u8>>, num: FileNum, size: u64) -> (r: FileMetaData)
    ensures
        keys@.len() == 0 ==> r@ == (FileMetaView {
            allowed_seeks: 0,
            num: 0,
            size: 0,
            smallest: Seq::empty(),
            largest: Seq::empty(),
        }),
        keys@.len() > 0 ==> r@ == (FileMetaView {
            allowed_seeks: 0,
            num,
            size,
            smallest: keys@[0]@,
            largest: keys@.last()@,
        }),
{
    let mut md = FileMetaData::new();
    if keys.len() > 0 {
        md.num = num;
        md.size = size;
        md.smallest = copy_bytes(keys[0].as_slice());
        md.largest = copy_bytes(keys[keys.len() - 1].as_slice());
    }
    md
}

/// The number that four bytes stand for, least significant byte first.
pub open spec fn le_u32(b: Seq<u8>) -> int {
    b[0] as int + 0x100 * (b[1] as int) + 0x1_0000 * (b[2] as int) + 0x100_0000 * (b[3] as int)
}

/// What the head of a write batch says: the sequence number of its first
/// entry, in the first eight bytes, and the number of its entries, in the
/// next four. A record shorter than these twelve bytes says nothing.
pub open spec fn batch_head(record: Seq<u8>) -> Option<(u64, u32)> {
    if record.len() < 12 {
        None
    } else {
        Some((le_u64(record.subrange(0, 8)) as u64, le_u32(record.subrange(8, 12)) as u32))
    }
}

/// Reads the head of a write batch.
pub fn batch_header(record: &[u8]) -> (r: Option<(u64, u32)>)
    ensures
        r == batch_head(record@),
{
    if record.len() < 12 {
        return None;
    }
    let seq = decode_fixed64(record, 0);
    let b0: u32 = record[8] as u32;
    let b1: u32 = record[9] as u32;
    let b2: u32 = record[10] as u32;
    let b3: u32 = record[11] as u32;
    Some((seq, b0 + 0x100 * b1 + 0x1_0000 * b2 + 0x100_0000 * b3))
}

/// The sequence number of the last entry of a batch of `count` entries that
/// starts at `seq`, held within 64 bits.
pub open spec fn batch_last_seq(seq: u64, count: u32) -> u64 {
    if seq + count == 0 {
        0
    } else if seq + count - 1 > u64::MAX {
        u64::MAX
    } else {
        (seq + count - 1) as u64
    }
}

/// What to do with a write-ahead log once its records are replayed.
#[derive(Clone, Copy, Debug, PartialEq, Eq, Structural)]
pub enum ReplayEnd {
    /// Keep appending to the log; the write buffer filled from it stays.
    Reuse,
    /// Write the write buffer out as a table.
    Flush,
    /// Nothing is left to write.
    Nothing,
}

/// What the replay of one write-ahead log has seen.
#[derive(Clone, Copy, Debug, PartialEq, Eq, Structural)]
pub struct LogReplay {
    /// Tables written because the write buffer was full.
    pub compactions: u64,
    /// The largest sequence number among the batches.
    pub max_seq: u64,
    /// Whether the manifest must be written after recovery.
    pub save_manifest: bool,
}

impl LogReplay {
    /// The state before the first record.
    pub fn new() -> (r: LogReplay)
        ensures
            r == (LogReplay { compactions: 0, max_seq: 0, save_manifest: false }),
    {
        LogReplay { compactions: 0, max_seq: 0, save_manifest: false }
    }

    /// Takes in one record. A record shorter than a batch's head is passed
    /// over and `None` returned. For any other, returns the sequence number
    /// at which the batch goes into the write buffer, and notes the largest
    /// sequence number seen and that the manifest must be written.
    pub fn on_record(&mut self, record: &[u8]) -> (r: Option<u64>)
        ensures
            r.is_none() == (record@.len() < 12),
            r.is_none() ==> *final(self) == *old(self),
            r.is_some() ==> ({
                let (seq, count) = batch_head(record@).unwrap();
                &&& r.unwrap() == seq
                &&& *final(self) == (LogReplay {
                    max_seq: if batch_last_seq(seq, count) > old(self).max_seq {
                        batch_last_seq(seq, count)
                    } else {
                        old(self).max_seq
                    },
                    save_manifest: true,
                    ..*old(self)
                })
            }),
    {
        match batch_header(record) {
            None => None,
            Some((seq, count)) => {
                let total: u128 = seq as u128 + count as u128;
                let last: u64 = if total == 0 {
                    0
                } else if total - 1 > u64::MAX as u128 {
                    u64::MAX
                } else {
                    (total - 1) as u64
                };
                if last > self.max_seq {
                    self.max_seq = last;
                }
                self.save_manifest = true;
                Some(seq)
            },
        }
    }

    /// Whether the write buffer, which now uses `mem_usage` bytes, is to be
    /// written out as a table: it has outgrown `write_buffer_size`.
    pub fn after_insert(&mut self, mem_usage: u64, write_buffer_size: u64) -> (r: bool)
        ensures
            r == (mem_usage > write_buffer_size),
            *final(self) == (LogReplay {
                compactions: if r {
                    capped_sum(old(self).compactions, 1)
                } else {
                    old(self).compactions
                },
                ..*old(self)
            }),
    {
        if mem_usage > write_buffer_size {
            self.compactions = self.compactions.saturating_add(1);
            true
        } else {
            false
        }
    }

    /// What to do at the end of the log. The log is kept for appending where
    /// logs are reused, this is the last log and no table was written while
    /// it was replayed; else a write buffer that holds entries is written
    /// out.
    pub fn finish(&self, opt: &Options, is_last: bool, mem_len: usize) -> (r: ReplayEnd)
        ensures
            r == if opt.reuse_logs && is_last && self.compactions == 0 {
                ReplayEnd::Reuse
            } else if mem_len > 0 {
                ReplayEnd::Flush
            } else {
                ReplayEnd::Nothing
            },
    {
        if opt.reuse_logs && is_last && self.compactions == 0 {
            ReplayEnd::Reuse
        } else if mem_len > 0 {
            ReplayEnd::Flush
        } else {
            ReplayEnd::Nothing
        }
    }
}

/// What the replay of the first `n` records of a log has seen, as
/// `on_record` takes them in one by one: whether any was a batch, and the
/// largest last sequence number among the batches.
pub open spec fn seen_after(records: Seq<Seq<u8>>, n: int) -> LogReplay
    decreases n,
{
    if n <= 0 {
        LogReplay { compactions: 0, max_seq: 0, save_manifest: false }
    } else {
        let before = seen_after(records, n - 1);
        match batch_head(records[n - 1]) {
            None => before,
            Some((seq, count)) => LogReplay {
                max_seq: if batch_last_seq(seq, count) > before.max_seq {
                    batch_last_seq(seq, count)
                } else {
                    before.max_seq
                },
                save_manifest: true,
                ..before
            },
        }
    }
}

/// The last sequence number of the batch that the record `r` stands for.
pub open spec fn record_last_seq(r: Seq<u8>) -> u64 {
    batch_last_seq(batch_head(r).unwrap().0, batch_head(r).unwrap().1)
}

/// What the replay of a log comes to. Records shorter than a batch's head
/// count for nothing. The manifest must be written if and only if some
/// record was a batch, and the sequence number that the replay reports is
/// the largest last sequence number of any batch, or 0 where there is none.
pub proof fn lemma_replay_sees(records: Seq<Seq<u8>>, n: int)
    requires
        0 <= n <= records.len(),
    ensures
        seen_after(records, n).save_manifest == exists|i: int|
            0 <= i < n && (#[trigger] records[i]).len() >= 12,
        forall|i: int|
            0 <= i < n && (#[trigger] records[i]).len() >= 12 ==> record_last_seq(records[i])
                <= seen_after(records, n).max_seq,
        seen_after(records, n).max_seq == 0 || exists|i: int|
            0 <= i < n && (#[trigger] records[i]).len() >= 12 && record_last_seq(records[i])
                == seen_after(records, n).max_seq,
    decreases n,
{
    if n > 0 {
        lemma_replay_sees(records, n - 1);
        let before = seen_after(records, n - 1);
        let now = seen_after(records, n);
        if records[n - 1].len() >= 12 {
            assert(now.save_manifest);
            if now.max_seq != 0 && now.max_seq == record_last_seq(records[n - 1]) {
                assert(records[n - 1].len() >= 12 && record_last_seq(records[n - 1])
                    == now.max_seq);
            }
        }
        if before.max_seq != 0 && now.max_seq == before.max_seq {
            let i = choose|i: int|
                0 <= i < n - 1 && (#[trigger] records[i]).len() >= 12 && record_last_seq(
                    records[i],
                ) == before.max_seq;
            assert(records[i].len() >= 12 && record_last_seq(records[i]) == now.max_seq);
        }
        if before.save_manifest {
            let i = choose|i: int| 0 <= i < n - 1 && (#[trigger] records[i]).len() >= 12;
            assert(records[i].len() >= 12);
        }
    }
}

/// Whether `nums` holds `n`.
pub fn contains_num(nums: &Vec<FileNum>, n: FileNum) -> (r: bool)
    ensures
        r == nums@.contains(n),
{
    let mut i: usize = 0;
    while i < nums.len()
        invariant
            i <= nums.len(),
            forall|k: int| 0 <= k < i ==> nums@[k] != n,
        decreases nums.len() - i,
    {
        if nums[i] == n {
            assert(nums@[i as int] == n);
            return true;
        }
        i += 1;
    }
    false
}

/// Whether the numbers come in ascending order.
pub open spec fn ascending(s: Seq<u64>) -> bool {
    forall|i: int, j: int| 0 <= i < j < s.len() ==> s[i] <= s[j]
}

/// Puts `n` into the ascending list `v`, behind the numbers that are not
/// larger.
pub fn insert_ascending(v: &mut Vec<u64>, n: u64)
    requires
        ascending(old(v)@),
    ensures
        ascending(final(v)@),
        final(v)@.len() == old(v)@.len() + 1,
        forall|x: u64| #[trigger] final(v)@.contains(x) <==> (old(v)@.contains(x) || x == n),
{
    let mut i: usize = 0;
    while i < v.len() && v[i] <= n
        invariant
            i <= v@.len(),
            *v == *old(v),
            forall|k: int| 0 <= k < i ==> v@[k] <= n,
        decreases v.len() - i,
    {
        i += 1;
    }
    let ghost before = v@;
    assert(before == old(v)@);
    v.insert(i, n);
    proof {
        assert forall|x: u64| #[trigger] v@.contains(x) <==> (before.contains(x) || x == n) by {
            if v@.contains(x) {
                let k = choose|k: int| 0 <= k < v@.len() && v@[k] == x;
                if k < i {
                    assert(before[k] == x);
                } else if k > i {
                    assert(before[k - 1] == x);
                }
            }
            if before.contains(x) {
                let k = choose|k: int| 0 <= k < before.len() && before[k] == x;
                if k < i {
                    assert(v@[k] == x);
                } else {
                    assert(v@[k + 1] == x);
                }
            }
            if x == n {
                assert(v@[i as int] == x);
            }
        }
    }
}

/// What the database itself keeps: its name, the tunables, the version set,
/// the live snapshots, the costs of compaction per level, and what it knows
/// of its write-ahead log and write buffers.
#[derive(Debug)]
pub struct DB {
    /// Name of the database directory.
    pub name: String,
    /// The tunables.
    pub opt: Options,
    /// The version set.
    pub vset: VersionSet,
    /// The live snapshots.
    pub snaps: SnapshotList,
    /// What compactions have cost, level by level.
    pub cstats: Vec<CompactionStats>,
    /// Number of the write-ahead log in use, once there is one.
    pub log_num: Option<FileNum>,
    /// Whether a full write buffer waits to be written out.
    pub has_imm: bool,
    /// Whether the lock file is held.
    pub lock_held: bool,
}

/// What a compaction that is due begins with.
#[derive(Debug)]
pub enum CompactionStart {
    /// The full write buffer is written out as a table.
    Memtable,
    /// Nothing is to be done.
    Nothing,
    /// One file moves a level down; the edit says so.
    TrivialMove(VersionEdit),
    /// Files are merged.
    Merge(CompactionState),
}

/// What the write buffers say together: the newer one decides unless it has
/// no entry of the key.
pub fn lookup_memtables(mem: Lookup, imm: Option<Lookup>) -> (r: Lookup)
    ensures
        r == match mem {
            Lookup::Missing => match imm {
                Some(found) => found,
                None => Lookup::Missing,
            },
            _ => mem,
        },
{
    match mem {
        Lookup::Missing => match imm {
            Some(found) => found,
            None => Lookup::Missing,
        },
        _ => mem,
    }
}

impl DB {
    /// The version set is well-formed and every level has its costs.
    pub open spec fn wf(&self) -> bool {
        &&& self.vset.wf()
        &&& self.cstats@.len() == NUM_LEVELS
    }

    /// A database that has not touched the disk yet.
    pub fn new(name: &str, opt: Options, comparator_name: &[u8]) -> (r: DB)
        ensures
            r.wf(),
            r.name@ == name@,
            r.opt == opt,
            r.vset.opt == opt,
            r.vset.next_file_num == 2,
            r.vset.last_seq == 0,
            r.vset.comparator_name@ == comparator_name@,
            r.snaps@.len() == 0,
            r.log_num.is_none(),
            !r.has_imm,
            !r.lock_held,
            forall|l: int|
                0 <= l < NUM_LEVELS ==> #[trigger] r.cstats@[l] == (CompactionStats {
                    micros: 0,
                    read: 0,
                    written: 0,
                }),
    {
        let mut cstats: Vec<CompactionStats> = Vec::new();
        let mut l: usize = 0;
        while l < NUM_LEVELS
            invariant
                l <= NUM_LEVELS,
                cstats@.len() == l,
                forall|k: int|
                    0 <= k < l ==> #[trigger] cstats@[k] == (CompactionStats {
                        micros: 0,
                        read: 0,
                        written: 0,
                    }),
            decreases NUM_LEVELS - l,
        {
            cstats.push(CompactionStats::default());
            l += 1;
        }
        DB {
            name: name.to_owned(),
            opt,
            vset: VersionSet::new(opt, comparator_name),
            snaps: SnapshotList::new(),
            cstats,
            log_num: None,
            has_imm: false,
            lock_held: false,
        }
    }

    /// The edit that a fresh database begins with: the comparator's name,
    /// log number 0, next file number 2, last sequence 0.
    pub fn initialize_db(&self) -> (r: VersionEdit)
        ensures
            r@ == (EditView {
                comparator: Some(self.vset.comparator_name@),
                log_number: Some(0),
                next_file_number: Some(2),
                last_seq: Some(0),
                ..EditView::empty()
            }),
    {
        let mut ve = VersionEdit::new();
        ve.set_comparator_name(self.vset.comparator_name.as_slice());
        ve.set_log_num(0);
        ve.set_next_file(2);
        ve.set_last_seq(0);
        ve
    }

    /// The steps that write the first manifest of a fresh database: the
    /// manifest with number 1 is created, the first edit is appended and made
    /// durable, and only then `CURRENT` is set to it.
    pub fn initial_manifest(&self) -> (r: Vec<ManifestAction>)
        ensures
            actions_view(r@) == seq![
                ActionView::Create(1),
                ActionView::Append(
                    enc_edit(
                        EditView {
                            comparator: Some(self.vset.comparator_name@),
                            log_number: Some(0),
                            next_file_number: Some(2),
                            last_seq: Some(0),
                            ..EditView::empty()
                        },
                    ),
                ),
                ActionView::Sync,
                ActionView::SetCurrent(1),
            ],
    {
        let ve = self.initialize_db();
        let mut steps: Vec<ManifestAction> = Vec::new();
        steps.push(ManifestAction::Create(1));
        steps.push(ManifestAction::Append(ve.encode()));
        steps.push(ManifestAction::Sync);
        steps.push(ManifestAction::SetCurrent(1));
        assert(actions_view(steps@) =~= seq![
            ActionView::Create(1),
            ActionView::Append(enc_edit(ve@)),
            ActionView::Sync,
            ActionView::SetCurrent(1),
        ]);
        steps
    }

    /// What opening does with what it finds: `Ok(true)` where the database
    /// is absent and is to be created, `Ok(false)` where it is present and
    /// may be, and `InvalidArgument` where it is absent and may not be
    /// created, or present and may not be.
    pub fn check_existing(&self, current_exists: bool) -> (r: Result<bool, Status>)
        ensures
            r.is_ok() == if current_exists {
                !self.opt.error_if_exists
            } else {
                self.opt.create_if_missing
            },
            r.is_ok() ==> r.unwrap() == !current_exists,
            r.is_err() ==> r.unwrap_err().spec_code() == StatusCode::InvalidArgument,
            r.is_err() && !current_exists ==> r.unwrap_err().spec_message()
                == "database does not exist and create_if_missing is false"@,
            r.is_err() && current_exists ==> r.unwrap_err().spec_message()
                == "database already exists and error_if_exists is true"@,
    {
        if !current_exists {
            if self.opt.create_if_missing {
                Ok(true)
            } else {
                Err(
                    Status::new(
                        StatusCode::InvalidArgument,
                        "database does not exist and create_if_missing is false",
                    ),
                )
            }
        } else if self.opt.error_if_exists {
            Err(
                Status::new(
                    StatusCode::InvalidArgument,
                    "database already exists and error_if_exists is true",
                ),
            )
        } else {
            Ok(false)
        }
    }

    /// What taking the lock file came to: `failure` is the kind of error
    /// that the attempt ended with, if any. A lock that another holds gives
    /// `LockError` with a message of its own; any other failure is handed on
    /// with `message`.
    pub fn acquire_lock(&mut self, failure: Option<StatusCode>, message: &str) -> (r: Result<
        (),
        Status,
    >)
        ensures
            r.is_ok() == failure.is_none(),
            r.is_ok() ==> *final(self) == (DB { lock_held: true, ..*old(self) }),
            r.is_err() ==> *final(self) == *old(self) && r.unwrap_err().spec_code()
                == failure.unwrap(),
            r.is_err() && failure.unwrap() == StatusCode::LockError ==> r.unwrap_err().spec_message()
                == "database lock is held by another instance"@,
            r.is_err() && failure.unwrap() != StatusCode::LockError && failure.unwrap()
                != StatusCode::OK ==> r.unwrap_err().spec_message() == message@,
    {
        match failure {
            None => {
                self.lock_held = true;
                Ok(())
            },
            Some(StatusCode::LockError) => Err(
                Status::new(StatusCode::LockError, "database lock is held by another instance"),
            ),
            Some(code) => Err(Status::new(code, message)),
        }
    }

    /// Whether the lock file is to be released now; it is then held no more.
    pub fn release_lock(&mut self) -> (r: bool)
        ensures
            r == old(self).lock_held,
            *final(self) == (DB { lock_held: false, ..*old(self) }),
    {
        let held = self.lock_held;
        self.lock_held = false;
        held
    }

    /// Which write-ahead logs recovery replays, given the files found in the
    /// directory: those with a number not below the log number in use, in
    /// ascending order. Every file found is taken out of the set of live
    /// files; fails with `Corruption` where a file of the current version is
    /// left, which is then not among the files found.
    #[verifier::loop_isolation(false)]
    pub fn recover(&self, found: &Vec<(FileNum, FileType)>) -> (r: Result<Vec<FileNum>, Status>)
        requires
            self.wf(),
        ensures
            r.is_err() == exists|l: int, i: int|
                0 <= l < NUM_LEVELS && 0 <= i < self.vset.current.level(l).len() && !numbers_of(
                    found@,
                ).contains(#[trigger] self.vset.current.level(l)[i].num),
            r.is_err() ==> r.unwrap_err().spec_code() == StatusCode::Corruption
                && r.unwrap_err().spec_message() == "missing live files (see log)"@,
            r.is_ok() ==> ascending(r.unwrap()@) && forall|n: u64|
                r.unwrap()@.contains(n) <==> (found@.contains((n, FileType::Log)) && n
                    >= self.vset.log_num),
    {
        broadcast use vstd::std_specs::hash::group_hash_axioms;

        let mut expected = self.vset.live_files();
        let ghost live = expected@;
        let mut nums: Vec<FileNum> = Vec::new();
        let mut logs: Vec<FileNum> = Vec::new();
        let mut i: usize = 0;
        while i < found.len()
            invariant
                i <= found@.len(),
                nums@ == numbers_of(found@).subrange(0, i as int),
                forall|n: u64|
                    expected@.contains(n) <==> (live.contains(n) && !nums@.contains(n)),
                ascending(logs@),
                forall|n: u64|
                    logs@.contains(n) <==> (found@.subrange(0, i as int).contains(
                        (n, FileType::Log),
                    ) && n >= self.vset.log_num),
            decreases found.len() - i,
        {
            let (num, typ) = found[i];
            let ghost seen = nums@;
            let ghost waiting = expected@;
            nums.push(num);
            expected.remove(&num);
            proof {
                assert(expected@ =~= waiting.remove(num));
                assert(nums@ =~= seen.push(num));
                assert forall|n: u64| expected@.contains(n) <==> (live.contains(n)
                    && !nums@.contains(n)) by {
                    assert(waiting.contains(n) <==> (live.contains(n) && !seen.contains(n)));
                    assert(expected@.contains(n) <==> (waiting.contains(n) && n != num));
                    if nums@.contains(n) {
                        let k = choose|k: int| 0 <= k < nums@.len() && nums@[k] == n;
                        if k < seen.len() {
                            assert(seen[k] == n);
                        }
                    }
                    if seen.contains(n) {
                        let k = choose|k: int| 0 <= k < seen.len() && seen[k] == n;
                        assert(nums@[k] == n);
                    }
                    if n == num {
                        assert(nums@[seen.len() as int] == n);
                    }
                }
            }
            let ghost before = logs@;
            let is_log = match typ {
                FileType::Log => true,
                _ => false,
            };
            if is_log && num >= self.vset.log_num {
                insert_ascending(&mut logs, num);
            }
            i += 1;
            proof {
                assert(nums@ =~= numbers_of(found@).subrange(0, i as int));
                let prev = found@.subrange(0, i - 1);
                let now = found@.subrange(0, i as int);
                assert(now =~= prev.push(found@[i - 1]));
                assert forall|n: u64| logs@.contains(n) <==> (now.contains((n, FileType::Log))
                    && n >= self.vset.log_num) by {
                    if now.contains((n, FileType::Log)) {
                        let k = choose|k: int| 0 <= k < now.len() && now[k] == (n, FileType::Log);
                        if k < i - 1 {
                            assert(prev[k] == (n, FileType::Log));
                        }
                    }
                    if prev.contains((n, FileType::Log)) {
                        let k = choose|k: int|
                            0 <= k < prev.len() && prev[k] == (n, FileType::Log);
                        assert(now[k] == (n, FileType::Log));
                    }
                    if is_log && n == num {
                        assert(now[i - 1] == (n, FileType::Log));
                    }
                }
            }
        }
        assert(found@.subrange(0, i as int) =~= found@);
        assert(nums@ =~= numbers_of(found@));
        if !expected.is_empty() {
            proof {
                assert(exists|n: u64| expected@.contains(n));
                let n = choose|n: u64| expected@.contains(n);
                assert(live.contains(n));
                let (l, i) = choose|l: int, i: int|
                    0 <= l < NUM_LEVELS && 0 <= i < self.vset.current.level(l).len()
                        && #[trigger] self.vset.current.level(l)[i].num == n;
                assert(!numbers_of(found@).contains(self.vset.current.level(l)[i].num));
            }
            return Err(Status::new(StatusCode::Corruption, "missing live files (see log)"));
        }
        proof {
            assert forall|l: int, i: int|
                0 <= l < NUM_LEVELS && 0 <= i < self.vset.current.level(l).len() implies nums@.contains(
            #[trigger] self.vset.current.level(l)[i].num) by {
                let n = self.vset.current.level(l)[i].num;
                assert(live.contains(n));
                assert(!expected@.contains(n));
            }
        }
        Ok(logs)
    }

    /// Takes in what the replay of the logs has seen: the last sequence
    /// number is raised to `max_seq` where that is larger.
    pub fn finish_recover(&mut self, max_seq: u64)
        ensures
            *final(self) == (DB {
                vset: VersionSet {
                    last_seq: if old(self).vset.last_seq < max_seq {
                        max_seq
                    } else {
                        old(self).vset.last_seq
                    },
                    ..old(self).vset
                },
                ..*old(self)
            }),
    {
        if self.vset.last_seq < max_seq {
            self.vset.last_seq = max_seq;
        }
    }

    /// The places, among the files found in the directory, of those that the
    /// sweep removes: logs and manifests older than the ones in use, and
    /// table and temporary files that are neither in the current version nor
    /// in `pending`, the inputs and outputs of a compaction under way.
    pub fn delete_obsolete_files(&self, found: &Vec<(FileNum, FileType)>, pending: &Vec<FileNum>) -> (r:
        Vec<usize>)
        requires
            self.wf(),
        ensures
            forall|k: int| 0 <= k < r@.len() ==> (#[trigger] r@[k]) < found@.len(),
            forall|k: int, j: int| 0 <= k < j < r@.len() ==> r@[k] < r@[j],
            forall|i: int|
                0 <= i < found@.len() ==> (r@.contains(i as usize) <==> self.sweeps(
                    #[trigger] found@[i],
                    pending@,
                )),
    {
        broadcast use vstd::std_specs::hash::group_hash_axioms;

        let live = self.vset.live_files();
        let mut out: Vec<usize> = Vec::new();
        let mut i: usize = 0;
        while i < found.len()
            invariant
                i <= found@.len(),
                self.wf(),
                forall|n: u64|
                    live@.contains(n) <==> exists|l: int, i: int|
                        0 <= l < NUM_LEVELS && 0 <= i < self.vset.current.level(l).len()
                            && #[trigger] self.vset.current.level(l)[i].num == n,
                forall|k: int| 0 <= k < out@.len() ==> (#[trigger] out@[k]) < i,
                forall|k: int, j: int| 0 <= k < j < out@.len() ==> out@[k] < out@[j],
                forall|j: int|
                    0 <= j < i ==> (out@.contains(j as usize) <==> self.sweeps(
                        #[trigger] found@[j],
                        pending@,
                    )),
            decreases found.len() - i,
        {
            let (num, typ) = found[i];
            let gone = match typ {
                FileType::Log => num < self.vset.log_num,
                FileType::Descriptor => num < self.vset.manifest_num,
                FileType::Table => !live.contains(&num) && !contains_num(pending, num),
                FileType::Temp => !live.contains(&num) && !contains_num(pending, num),
                FileType::Current => false,
                FileType::DBLock => false,
                FileType::InfoLog => false,
            };
            assert(gone == self.sweeps(found@[i as int], pending@));
            let ghost before = out@;
            if gone {
                out.push(i);
            }
            proof {
                assert forall|j: int| 0 <= j < i + 1 implies (out@.contains(j as usize)
                    <==> self.sweeps(#[trigger] found@[j], pending@)) by {
                    if out@.contains(j as usize) {
                        let k = choose|k: int| 0 <= k < out@.len() && out@[k] == j as usize;
                        if k < before.len() {
                            assert(before[k] == j as usize);
                            assert(before.contains(j as usize));
                        }
                    }
                    if before.contains(j as usize) {
                        let k = choose|k: int| 0 <= k < before.len() && before[k] == j as usize;
                        assert(out@[k] == j as usize);
                    }
                    if gone && j == i {
                        assert(out@[before.len() as int] == j as usize);
                    }
                }
            }
            i += 1;
        }
        out
    }

    /// Whether the sweep removes the file `f`.
    pub open spec fn sweeps(&self, f: (u64, FileType), pending: Seq<u64>) -> bool {
        match f.1 {
            FileType::Log => f.0 < self.vset.log_num,
            FileType::Descriptor => f.0 < self.vset.manifest_num,
            FileType::Table => !self.is_live(f.0) && !pending.contains(f.0),
            FileType::Temp => !self.is_live(f.0) && !pending.contains(f.0),
            FileType::Current => false,
            FileType::DBLock => false,
            FileType::InfoLog => false,
        }
    }

    /// Whether the current version holds a file with the number `n`.
    pub open spec fn is_live(&self, n: u64) -> bool {
        exists|l: int, i: int|
            0 <= l < NUM_LEVELS && 0 <= i < self.vset.current.level(l).len()
                && #[trigger] self.vset.current.level(l)[i].num == n
    }

    /// The sequence number that the next write begins with.
    pub fn next_sequence(&self) -> (r: u64)
        requires
            self.vset.last_seq < u64::MAX,
        ensures
            r == self.vset.last_seq + 1,
    {
        self.vset.last_seq + 1
    }

    /// Records that a batch of `entries` entries went to the write-ahead log
    /// and the write buffer: the last sequence number moves on by as many.
    pub fn write(&mut self, entries: u32)
        requires
            old(self).vset.last_seq + entries <= u64::MAX,
        ensures
            *final(self) == (DB {
                vset: VersionSet {
                    last_seq: (old(self).vset.last_seq + entries) as u64,
                    ..old(self).vset
                },
                ..*old(self)
            }),
    {
        self.vset.last_seq = self.vset.last_seq + entries as u64;
    }

    /// Pins the current state: a snapshot at the last sequence number.
    pub fn get_snapshot(&mut self) -> (r: Snapshot)
        ensures
            r.spec_sequence() == old(self).vset.last_seq,
            final(self).snaps@ == old(self).snaps@.push(old(self).vset.last_seq),
            final(self).vset == old(self).vset,
            final(self).cstats == old(self).cstats,
            final(self).opt == old(self).opt,
    {
        self.snaps.new_snapshot(self.vset.last_seq)
    }

    /// Adds the costs `cs` to those of `level`.
    pub fn add_stats(&mut self, level: usize, cs: CompactionStats)
        requires
            old(self).wf(),
            level < NUM_LEVELS,
        ensures
            final(self).wf(),
            final(self).cstats@ == old(self).cstats@.update(
                level as int,
                CompactionStats {
                    micros: capped_sum(old(self).cstats@[level as int].micros, cs.micros),
                    read: capped_sum(old(self).cstats@[level as int].read, cs.read),
                    written: capped_sum(old(self).cstats@[level as int].written, cs.written),
                },
            ),
            final(self).vset == old(self).vset,
            final(self).snaps == old(self).snaps,
            final(self).opt == old(self).opt,
            final(self).log_num == old(self).log_num,
            final(self).has_imm == old(self).has_imm,
    {
        let mut s = self.cstats[level];
        s.add(cs);
        self.cstats.set(level, s);
    }

    /// Whether the write buffer, which uses `mem_usage` bytes, must be
    /// rotated before the next write: it has reached `write_buffer_size`.
    pub fn make_room_for_write(&self, mem_usage: u64) -> (r: bool)
        ensures
            r == (mem_usage >= self.opt.write_buffer_size),
    {
        mem_usage >= self.opt.write_buffer_size
    }

    /// Records that the write buffer was rotated: the log `logn` is in use,
    /// and the full write buffer waits to be written out.
    pub fn rotated(&mut self, logn: FileNum)
        ensures
            *final(self) == (DB { log_num: Some(logn), has_imm: true, ..*old(self) }),
    {
        self.log_num = Some(logn);
        self.has_imm = true;
    }

    /// Whether a compaction is due: a full write buffer waits, or the
    /// version set asks for one.
    pub fn maybe_do_compaction(&self) -> (r: bool)
        ensures
            r == (self.has_imm || self.vset.current.compaction_score
                >= crate::version_set::SCORE_ONE || self.vset.current.file_to_compact.is_some()),
    {
        self.has_imm || self.vset.needs_compaction()
    }

    /// Begins the compaction that is due. A full write buffer comes first.
    /// Else the version set picks: nothing; a compaction that is a trivial
    /// move, for which the edit that moves its one file a level down and
    /// records the level's compaction pointer is returned; or any other
    /// compaction, which is a merge, whose state is returned as the version
    /// set picked it, with the sequence number fixed at or below which
    /// obsolete entries may go.
    pub fn start_compaction(&mut self) -> (r: CompactionStart)
        requires
            old(self).wf(),
        ensures
            final(self).wf(),
            old(self).has_imm ==> r is Memtable && *final(self) == *old(self),
            !old(self).has_imm ==> ({
                let picked = old(self).vset.size_triggered() || old(self).vset.seek_triggered();
                &&& !picked ==> r is Nothing && *final(self) == *old(self)
                &&& picked ==> (r is TrivialMove || r is Merge)
                &&& r is TrivialMove ==> ({
                    let l = old(self).vset.pick_level();
                    let f = old(self).vset.pick_file();
                    &&& exists|c: Compaction| #[trigger] old(self).vset.picked(c) && c.trivial()
                    &&& r->TrivialMove_0@ == (EditView {
                        compaction_ptrs: seq![(l, f.largest)],
                        deleted: seq![(l, f.num)],
                        new_files: seq![new_file_view((l + 1) as usize, f)],
                        ..EditView::empty()
                    })
                    &&& final(self).vset.compaction_ptrs@[l as int]@ == f.largest
                })
                &&& r is Merge ==> ({
                    let cs = r->Merge_0;
                    &&& cs.wf()
                    &&& old(self).vset.picked(cs.compaction)
                    &&& !cs.compaction.trivial()
                    &&& final(self).vset.compaction_ptrs@[cs.compaction.level as int]@
                        == crate::version_set::largest_key(
                        metas(cs.compaction.inputs0@),
                        cs.compaction.inputs0@.len() as int,
                    )
                    &&& cs.total_bytes == 0
                    &&& cs.outputs@.len() == 0
                    &&& !cs.builder_open
                    &&& cs.tracker@ == track_start()
                    &&& cs.smallest_seq == if old(self).snaps@.len() == 0 {
                        old(self).vset.last_seq
                    } else {
                        old(self).snaps@[0]
                    }
                })
            }),
            final(self).vset.current == old(self).vset.current,
            final(self).vset.next_file_num == old(self).vset.next_file_num,
            final(self).vset.last_seq == old(self).vset.last_seq,
            final(self).cstats == old(self).cstats,
            final(self).snaps == old(self).snaps,
            final(self).has_imm == old(self).has_imm,
    {
        if self.has_imm {
            return CompactionStart::Memtable;
        }
        let mut compaction = match self.vset.pick_compaction() {
            None => {
                return CompactionStart::Nothing;
            },
            Some(c) => c,
        };
        if compaction.is_trivial_move() {
            let f = compaction.input(0, 0);
            let level = compaction.level();
            let ghost m0 = metas(compaction.inputs0@);
            let ghost c0 = compaction;
            proof {
                assert(old(self).vset.picked(c0) && c0.trivial());
                assert(m0.contains(old(self).vset.pick_file()));
                assert(m0[0] == old(self).vset.pick_file());
            }
            proof {
                assert(m0 =~= seq![old(self).vset.pick_file()]);
            }
            let mut edit = compaction.edit;
            edit.delete_file(level, f.num);
            edit.add_file(level + 1, f);
            assert(edit@.deleted =~= seq![(level, old(self).vset.pick_file().num)]);
            assert(edit@.new_files =~= seq![
                new_file_view((level + 1) as usize, old(self).vset.pick_file()),
            ]);
            CompactionStart::TrivialMove(edit)
        } else {
            let mut state = CompactionState::new(compaction);
            state.begin(&self.snaps, self.vset.last_seq);
            CompactionStart::Merge(state)
        }
    }

    /// Opens the next output of a merge under the next file number, which it
    /// hands out. The numbers of the outputs of a merge thus ascend and stay
    /// below the next file number.
    pub fn open_compaction_output(&mut self, cs: &mut CompactionState) -> (r: FileNum)
        requires
            old(self).wf(),
            old(cs).wf(),
            !old(cs).builder_open,
            old(self).vset.next_file_num < u64::MAX,
        ensures
            final(self).wf(),
            final(cs).wf(),
            r == old(self).vset.next_file_num,
            *final(self) == (DB {
                vset: VersionSet { next_file_num: (r + 1) as u64, ..old(self).vset },
                ..*old(self)
            }),
            final(cs).builder_open,
            final(cs).builder_entries == 0,
            metas(final(cs).outputs@) == metas(old(cs).outputs@).push(
                FileMetaView {
                    allowed_seeks: 0,
                    num: r,
                    size: 0,
                    smallest: Seq::empty(),
                    largest: Seq::empty(),
                },
            ),
            final(cs).compaction == old(cs).compaction,
            final(cs).smallest_seq == old(cs).smallest_seq,
            final(cs).total_bytes == old(cs).total_bytes,
            final(cs).tracker == old(cs).tracker,
            forall|from: u64| #[trigger]
                numbered(numbers(metas(old(cs).outputs@)), from, old(self).vset.next_file_num)
                    && from <= r ==> numbered(
                    numbers(metas(final(cs).outputs@)),
                    from,
                    final(self).vset.next_file_num,
                ),
    {
        let fnum = self.vset.new_file_number();
        cs.open_output(fnum);
        proof {
            let before = numbers(metas(old(cs).outputs@));
            let after = numbers(metas(cs.outputs@));
            assert(after =~= before.push(fnum));
        }
        fnum
    }

    /// The edit that a write buffer written out as a table ends in: it
    /// records the log number in use, 0 where there is none yet.
    pub fn compact_memtable(&self, ve: &mut VersionEdit)
        ensures
            final(ve)@ == (EditView {
                log_number: Some(
                    match self.log_num {
                        Some(n) => n,
                        None => 0,
                    },
                ),
                ..old(ve)@
            }),
    {
        let n = match self.log_num {
            Some(n) => n,
            None => 0,
        };
        ve.set_log_num(n);
    }

    /// Records that the full write buffer was written out and its edit
    /// applied.
    pub fn memtable_compacted(&mut self)
        ensures
            *final(self) == (DB { has_imm: false, ..*old(self) }),
    {
        self.has_imm = false;
    }

    /// Places the table `fmd`, which was written from a write buffer as file
    /// `num` in `micros` microseconds. An empty table is not placed: its
    /// number is taken back and `None` returned. Else the table joins `ve` at
    /// the level that the current version picks for its key range, where
    /// `use_base` says so, and at level 0 else; the costs go to that level,
    /// and the level is returned.
    pub fn write_l0_table(
        &mut self,
        num: FileNum,
        fmd: FileMetaData,
        micros: u64,
        ve: &mut VersionEdit,
        use_base: bool,
    ) -> (r: Option<usize>)
        requires
            old(self).wf(),
        ensures
            final(self).wf(),
            r.is_none() == (fmd.size == 0),
            r.is_none() ==> final(ve)@ == old(ve)@ && final(self).cstats == old(self).cstats
                && final(self).vset == (VersionSet {
                next_file_num: if old(self).vset.next_file_num == num + 1 {
                    num
                } else {
                    old(self).vset.next_file_num
                },
                ..old(self).vset
            }),
            r.is_some() ==> ({
                let level = r.unwrap();
                &&& level as int == if use_base {
                    old(self).vset.current.flush_level(
                        old(self).opt,
                        user_key_of(fmd.smallest@),
                        user_key_of(fmd.largest@),
                    )
                } else {
                    0
                }
                &&& final(ve)@ == (EditView {
                    new_files: old(ve)@.new_files.push(new_file_view(level, fmd@)),
                    ..old(ve)@
                })
                &&& final(self).vset == old(self).vset
                &&& final(self).cstats@ == old(self).cstats@.update(
                    level as int,
                    CompactionStats {
                        micros: capped_sum(old(self).cstats@[level as int].micros, micros),
                        read: old(self).cstats@[level as int].read,
                        written: capped_sum(old(self).cstats@[level as int].written, fmd.size),
                    },
                )
            }),
            final(self).snaps == old(self).snaps,
            final(self).opt == old(self).opt,
            final(self).log_num == old(self).log_num,
            final(self).has_imm == old(self).has_imm,
    {
        if fmd.size == 0 {
            self.vset.reuse_file_number(num);
            return None;
        }
        let stats = CompactionStats { micros, read: 0, written: fmd.size };
        let level: usize = if use_base {
            self.vset.current.pick_memtable_output_level(
                &self.opt,
                extract_user_key(fmd.smallest.as_slice()),
                extract_user_key(fmd.largest.as_slice()),
            )
        } else {
            0
        };
        self.add_stats(level, stats);
        ve.add_file(level, fmd);
        Some(level)
    }
}

/// A manifest that is reused is kept and appended to: while it is the
/// manifest in force and open, the sweep does not remove it, and an edit is
/// written by appending its record to it and making the record durable.
pub proof fn lemma_reused_manifest_kept(db: &DB, edit: EditView, pending: Seq<u64>)
    requires
        db.vset.manifest_open,
    ensures
        !db.sweeps((db.vset.manifest_num, FileType::Descriptor), pending),
        db.vset.manifest_steps(edit) == seq![
            ActionView::Append(enc_edit(edit)),
            ActionView::Sync,
        ],
{
}

/// Once no write buffer waits, the highest score is below 1 and no file is
/// marked by reads, nothing asks for a compaction: `start_compaction` then
/// does nothing and leaves the database as it is.
pub proof fn lemma_quiet_below_one(db: &DB)
    requires
        !db.has_imm,
        db.vset.current.compaction_score < crate::version_set::SCORE_ONE,
        db.vset.current.file_to_compact.is_none(),
    ensures
        !db.vset.size_triggered(),
        !db.vset.seek_triggered(),
{
}

/// The numbers of the files found.
pub open spec fn numbers_of(found: Seq<(u64, FileType)>) -> Seq<u64> {
    Seq::new(found.len(), |i: int| found[i].0)
}

} // verus!
