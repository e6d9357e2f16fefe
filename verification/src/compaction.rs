//! One scheduled merge: its inputs at two levels, the files further down that
//! bound its outputs, and the edit that will install its result.

use vstd::prelude::*;
use crate::key_types::{internal_key_lt, internal_lt};
use crate::types::{Options, NUM_LEVELS};
use crate::version::{
    file_numbers, metas, numbers, total_file_size, total_size, FileMetaData, FileMetaView,
    FileNum, Version,
};
use crate::version_edit::{EditView, VersionEdit};

verus! {

/// Whether some file among `files` holds `ukey` in its user-key range.
pub open spec fn some_file_covers(files: Seq<FileMetaView>, ukey: Seq<u8>) -> bool {
    exists|i: int| 0 <= i < files.len() && (#[trigger] files[i]).covers(ukey)
}

/// Whether some file among `files` holds `ukey` in its user-key range.
pub fn any_file_covers(files: &Vec<FileMetaData>, ukey: &[u8]) -> (r: bool)
    ensures
        r == some_file_covers(metas(files@), ukey@),
{
    let mut i: usize = 0;
    while i < files.len()
        invariant
            i <= files.len(),
            forall|k: int| 0 <= k < i ==> !(#[trigger] metas(files@)[k]).covers(ukey@),
        decreases files.len() - i,
    {
        if files[i].overlaps_range(ukey, ukey) {
            assert(metas(files@)[i as int].covers(ukey@));
            return true;
        }
        i += 1;
    }
    false
}

/// Copies of the descriptors in `src`, in their order.
pub fn copy_files(src: &Vec<FileMetaData>) -> (r: Vec<FileMetaData>)
    ensures
        metas(r@) == metas(src@),
{
    let mut out: Vec<FileMetaData> = Vec::new();
    let mut i: usize = 0;
    while i < src.len()
        invariant
            i <= src.len(),
            metas(out@) == metas(src@).subrange(0, i as int),
        decreases src.len() - i,
    {
        let ghost before = metas(out@);
        out.push(src[i].copy());
        assert(metas(out@) =~= before.push(src@[i as int]@));
        i += 1;
        assert(before.push(src@[i - 1]@) =~= metas(src@).subrange(0, i as int));
    }
    assert(metas(src@).subrange(0, i as int) =~= metas(src@));
    out
}

/// The first place from `from` on whose file does not end before `ikey` in
/// internal-key order; the number of files where there is none.
pub open spec fn first_not_before(files: Seq<FileMetaView>, from: int, ikey: Seq<u8>) -> int
    decreases files.len() - from,
{
    if from < 0 || from >= files.len() {
        from
    } else if internal_lt(files[from].largest, ikey) {
        first_not_before(files, from + 1, ikey)
    } else {
        from
    }
}

/// Description of one merge of files at `level` with files at `level + 1`.
#[derive(Debug)]
pub struct Compaction {
    /// The level that is compacted.
    pub level: usize,
    /// Most bytes of the level after next that one output file may overlap.
    pub max_grandparent_overlap_bytes: u128,
    /// The input files at `level`.
    pub inputs0: Vec<FileMetaData>,
    /// The input files at `level + 1`.
    pub inputs1: Vec<FileMetaData>,
    /// The files at `level + 2` that meet the key range of the inputs.
    pub grandparents: Vec<FileMetaData>,
    /// The files of the levels below `level + 1`, one list per level.
    pub deeper: Vec<Vec<FileMetaData>>,
    /// Place among the grandparents that the keys seen so far have reached.
    pub grandparent_ix: usize,
    /// Whether a key was seen yet.
    pub seen_key: bool,
    /// Bytes of grandparents that the current output overlaps.
    pub overlapped_bytes: u128,
    /// The edit that installs the result.
    pub edit: VersionEdit,
}

impl Compaction {
    /// The levels are in range and the place among the grandparents is too.
    pub open spec fn wf(&self) -> bool {
        &&& self.level + 1 < NUM_LEVELS
        &&& self.grandparent_ix <= self.grandparents@.len()
        &&& self.overlapped_bytes <= total_size(
            metas(self.grandparents@).subrange(0, self.grandparent_ix as int),
        )
    }

    /// The bytes of grandparents that an output ending before `ikey` would
    /// overlap: those counted so far and, once a key was seen, those of the
    /// grandparents that end before `ikey`.
    pub open spec fn overlap_before(&self, ikey: Seq<u8>) -> int {
        if self.seen_key {
            self.overlapped_bytes + total_size(
                metas(self.grandparents@).subrange(
                    self.grandparent_ix as int,
                    first_not_before(
                        metas(self.grandparents@),
                        self.grandparent_ix as int,
                        ikey,
                    ),
                ),
            )
        } else {
            self.overlapped_bytes as int
        }
    }

    /// Whether the output under way is to end before `ikey`: it would
    /// overlap more bytes of grandparents than one output file may.
    pub open spec fn stops_before(&self, ikey: Seq<u8>) -> bool {
        self.overlap_before(ikey) > self.max_grandparent_overlap_bytes
    }

    /// Whether no level below `level + 1` has a file whose range holds
    /// `ukey`.
    pub open spec fn base_level_for(&self, ukey: Seq<u8>) -> bool {
        forall|l: int|
            0 <= l < self.deeper@.len() ==> !some_file_covers(
                metas((#[trigger] self.deeper@[l])@),
                ukey,
            )
    }

    /// Whether the levels that this merge holds as deeper ones are the
    /// levels of `v` below `level + 1`.
    pub open spec fn base_level_for_matches(&self, v: &Version) -> bool {
        &&& self.deeper@.len() == NUM_LEVELS - self.level - 2
        &&& forall|k: int|
            0 <= k < self.deeper@.len() ==> metas((#[trigger] self.deeper@[k])@) == v.level(
                self.level + 2 + k,
            )
    }

    /// A merge at `level` without inputs. `version` supplies the files of the
    /// levels below `level + 1`.
    pub fn new(opt: &Options, level: usize, version: &Version) -> (r: Compaction)
        requires
            version.wf(),
            level + 1 < NUM_LEVELS,
        ensures
            r.wf(),
            r.level == level,
            r.max_grandparent_overlap_bytes == opt.spec_max_grandparent_overlap_bytes(),
            r.inputs0@.len() == 0,
            r.inputs1@.len() == 0,
            r.grandparents@.len() == 0,
            r.grandparent_ix == 0,
            !r.seen_key,
            r.overlapped_bytes == 0,
            r.edit@ == EditView::empty(),
            r.deeper@.len() == NUM_LEVELS - level - 2,
            forall|k: int|
                0 <= k < r.deeper@.len() ==> metas((#[trigger] r.deeper@[k])@) == version.level(
                    level + 2 + k,
                ),
    {
        let mut deeper: Vec<Vec<FileMetaData>> = Vec::new();
        let mut l: usize = level + 2;
        while l < NUM_LEVELS
            invariant
                version.wf(),
                level + 2 <= l <= NUM_LEVELS,
                deeper@.len() == l - level - 2,
                forall|k: int|
                    0 <= k < deeper@.len() ==> metas((#[trigger] deeper@[k])@) == version.level(
                        level + 2 + k,
                    ),
            decreases NUM_LEVELS - l,
        {
            let copy = copy_files(&version.files[l]);
            deeper.push(copy);
            l += 1;
        }
        Compaction {
            level,
            max_grandparent_overlap_bytes: opt.max_grandparent_overlap_bytes(),
            inputs0: Vec::new(),
            inputs1: Vec::new(),
            grandparents: Vec::new(),
            deeper,
            grandparent_ix: 0,
            seen_key: false,
            overlapped_bytes: 0,
            edit: VersionEdit::new(),
        }
    }

    /// The level that is compacted.
    pub fn level(&self) -> (r: usize)
        ensures
            r == self.level,
    {
        self.level
    }

    /// Number of input files at `level` (`parent` 0) or `level + 1`
    /// (`parent` 1).
    pub fn num_inputs(&self, parent: usize) -> (r: usize)
        requires
            parent < 2,
        ensures
            parent == 0 ==> r == self.inputs0@.len(),
            parent == 1 ==> r == self.inputs1@.len(),
    {
        if parent == 0 {
            self.inputs0.len()
        } else {
            self.inputs1.len()
        }
    }

    /// A copy of an input file's descriptor.
    pub fn input(&self, parent: usize, ix: usize) -> (r: FileMetaData)
        requires
            parent < 2,
            parent == 0 ==> ix < self.inputs0@.len(),
            parent == 1 ==> ix < self.inputs1@.len(),
        ensures
            parent == 0 ==> r@ == self.inputs0@[ix as int]@,
            parent == 1 ==> r@ == self.inputs1@[ix as int]@,
    {
        if parent == 0 {
            self.inputs0[ix].copy()
        } else {
            self.inputs1[ix].copy()
        }
    }

    /// The files to read for the merge: the numbers of those to be read each
    /// by itself, which are the inputs at level 0, and the lists of those to
    /// be read one behind the other, which are the inputs of a deeper level.
    pub fn make_input_iterator(&self) -> (r: (Vec<FileNum>, Vec<Vec<FileNum>>))
        ensures
            self.level == 0 ==> r.0@ == numbers(metas(self.inputs0@)) && r.1@.len() == 1 && r.1@[0]@
                == numbers(metas(self.inputs1@)),
            self.level != 0 ==> r.0@.len() == 0 && r.1@.len() == 2 && r.1@[0]@ == numbers(
                metas(self.inputs0@),
            ) && r.1@[1]@ == numbers(metas(self.inputs1@)),
    {
        let mut deeper: Vec<Vec<FileNum>> = Vec::new();
        if self.level == 0 {
            deeper.push(file_numbers(&self.inputs1));
            (file_numbers(&self.inputs0), deeper)
        } else {
            deeper.push(file_numbers(&self.inputs0));
            deeper.push(file_numbers(&self.inputs1));
            (Vec::new(), deeper)
        }
    }

    /// Whether the merge can be done by moving one file a level down: there
    /// is one input at `level`, none at `level + 1`, and the grandparents
    /// hold no more bytes than one output file may overlap.
    pub open spec fn trivial(&self) -> bool {
        self.inputs0@.len() == 1 && self.inputs1@.len() == 0 && total_size(
            metas(self.grandparents@),
        ) <= self.max_grandparent_overlap_bytes
    }

    /// Whether the merge can be done by moving one file a level down: there
    /// is one input at `level`, none at `level + 1`, and the grandparents
    /// hold no more bytes than one output file may overlap.
    pub fn is_trivial_move(&self) -> (r: bool)
        ensures
            r == self.trivial(),
    {
        self.inputs0.len() == 1 && self.inputs1.len() == 0 && total_file_size(&self.grandparents)
            <= self.max_grandparent_overlap_bytes
    }

    /// Whether the merge's output level is the deepest that can hold `ukey`:
    /// no level below `level + 1` has a file whose range holds the user key.
    /// Only then may a tombstone of the key be dropped.
    pub fn is_base_level_for(&self, ukey: &[u8]) -> (r: bool)
        ensures
            r == self.base_level_for(ukey@),
    {
        let mut l: usize = 0;
        while l < self.deeper.len()
            invariant
                l <= self.deeper@.len(),
                forall|k: int|
                    0 <= k < l ==> !some_file_covers(metas((#[trigger] self.deeper@[k])@), ukey@),
            decreases self.deeper.len() - l,
        {
            if any_file_covers(&self.deeper[l], ukey) {
                return false;
            }
            l += 1;
        }
        true
    }

    /// Walks the grandparents up to the first that does not end before
    /// `ikey`, and counts the bytes of those passed once a key was seen.
    /// Returns true, and starts counting anew, once the count exceeds what one
    /// output file may overlap: the current output is to end before `ikey`.
    pub fn should_stop_before(&mut self, ikey: &[u8]) -> (r: bool)
        requires
            old(self).wf(),
        ensures
            final(self).wf(),
            final(self).grandparent_ix == first_not_before(
                metas(old(self).grandparents@),
                old(self).grandparent_ix as int,
                ikey@,
            ),
            final(self).seen_key,
            r == old(self).stops_before(ikey@),
            ({
                let passed = total_size(
                    metas(old(self).grandparents@).subrange(
                        old(self).grandparent_ix as int,
                        final(self).grandparent_ix as int,
                    ),
                );
                let count = if old(self).seen_key {
                    old(self).overlapped_bytes + passed
                } else {
                    old(self).overlapped_bytes as int
                };
                &&& r == (count > old(self).max_grandparent_overlap_bytes)
                &&& final(self).overlapped_bytes == if r {
                    0
                } else {
                    count
                }
            }),
            final(self).level == old(self).level,
            final(self).max_grandparent_overlap_bytes == old(self).max_grandparent_overlap_bytes,
            final(self).inputs0 == old(self).inputs0,
            final(self).inputs1 == old(self).inputs1,
            final(self).grandparents == old(self).grandparents,
            final(self).deeper == old(self).deeper,
            final(self).edit == old(self).edit,
    {
        let ghost gps = metas(self.grandparents@);
        let ghost start = self.grandparent_ix as int;
        let ghost count0 = self.overlapped_bytes;
        let mut passed: u128 = 0;
        proof {
            assert(gps.subrange(start, start).len() == 0);
            lemma_total_size_bound(gps.subrange(0, start));
        }
        while self.grandparent_ix < self.grandparents.len() && internal_key_lt(
            self.grandparents[self.grandparent_ix].largest.as_slice(),
            ikey,
        )
            invariant
                gps == metas(self.grandparents@),
                0 <= start <= self.grandparent_ix <= self.grandparents@.len(),
                start == old(self).grandparent_ix,
                count0 == old(self).overlapped_bytes,
                first_not_before(gps, start, ikey@) == first_not_before(
                    gps,
                    self.grandparent_ix as int,
                    ikey@,
                ),
                passed == total_size(gps.subrange(start, self.grandparent_ix as int)),
                count0 + passed <= total_size(gps.subrange(0, self.grandparent_ix as int)),
                self.overlapped_bytes == count0,
                self.level == old(self).level,
                self.seen_key == old(self).seen_key,
                self.max_grandparent_overlap_bytes == old(self).max_grandparent_overlap_bytes,
                self.inputs0 == old(self).inputs0,
                self.inputs1 == old(self).inputs1,
                self.grandparents == old(self).grandparents,
                self.deeper == old(self).deeper,
                self.edit == old(self).edit,
            decreases self.grandparents.len() - self.grandparent_ix,
        {
            proof {
                let ix = self.grandparent_ix as int;
                assert(gps.subrange(start, ix + 1).drop_last() =~= gps.subrange(start, ix));
                assert(gps.subrange(0, ix + 1).drop_last() =~= gps.subrange(0, ix));
                lemma_total_size_bound(gps.subrange(0, ix + 1));
            }
            passed = passed + (self.grandparents[self.grandparent_ix].size as u128);
            self.grandparent_ix += 1;
        }
        proof {
            lemma_total_size_bound(gps.subrange(0, self.grandparent_ix as int));
        }
        if self.seen_key {
            self.overlapped_bytes = self.overlapped_bytes + passed;
        }
        self.seen_key = true;
        if self.overlapped_bytes > self.max_grandparent_overlap_bytes {
            self.overlapped_bytes = 0;
            true
        } else {
            false
        }
    }

    /// Records in the edit, for every input file at `level` and at
    /// `level + 1`, that the file leaves its level.
    pub fn add_input_deletions(&mut self)
        requires
            old(self).wf(),
        ensures
            final(self).wf(),
            final(self).edit@ == (EditView {
                deleted: old(self).edit@.deleted + input_deletions(
                    old(self).level,
                    metas(old(self).inputs0@),
                ) + input_deletions((old(self).level + 1) as usize, metas(old(self).inputs1@)),
                ..old(self).edit@
            }),
            final(self).level == old(self).level,
            final(self).max_grandparent_overlap_bytes == old(self).max_grandparent_overlap_bytes,
            final(self).inputs0 == old(self).inputs0,
            final(self).inputs1 == old(self).inputs1,
            final(self).grandparents == old(self).grandparents,
            final(self).deeper == old(self).deeper,
            final(self).grandparent_ix == old(self).grandparent_ix,
            final(self).seen_key == old(self).seen_key,
            final(self).overlapped_bytes == old(self).overlapped_bytes,
    {
        let mut i: usize = 0;
        while i < self.inputs0.len()
            invariant
                i <= self.inputs0@.len(),
                self.edit@ == (EditView {
                    deleted: old(self).edit@.deleted + input_deletions(
                        self.level,
                        metas(self.inputs0@).subrange(0, i as int),
                    ),
                    ..old(self).edit@
                }),
                self.level == old(self).level,
                self.max_grandparent_overlap_bytes == old(self).max_grandparent_overlap_bytes,
                self.inputs0 == old(self).inputs0,
                self.inputs1 == old(self).inputs1,
                self.grandparents == old(self).grandparents,
                self.deeper == old(self).deeper,
                self.grandparent_ix == old(self).grandparent_ix,
                self.seen_key == old(self).seen_key,
                self.overlapped_bytes == old(self).overlapped_bytes,
            decreases self.inputs0.len() - i,
        {
            let num = self.inputs0[i].num;
            self.edit.delete_file(self.level, num);
            i += 1;
            assert(self.edit@.deleted =~= old(self).edit@.deleted + input_deletions(
                self.level,
                metas(self.inputs0@).subrange(0, i as int),
            ));
        }
        assert(metas(self.inputs0@).subrange(0, i as int) =~= metas(self.inputs0@));
        let ghost mid = self.edit@.deleted;
        let next: usize = self.level + 1;
        let mut j: usize = 0;
        while j < self.inputs1.len()
            invariant
                j <= self.inputs1@.len(),
                next == self.level + 1,
                self.edit@ == (EditView {
                    deleted: mid + input_deletions(
                        next,
                        metas(self.inputs1@).subrange(0, j as int),
                    ),
                    ..old(self).edit@
                }),
                self.level == old(self).level,
                self.max_grandparent_overlap_bytes == old(self).max_grandparent_overlap_bytes,
                self.inputs0 == old(self).inputs0,
                self.inputs1 == old(self).inputs1,
                self.grandparents == old(self).grandparents,
                self.deeper == old(self).deeper,
                self.grandparent_ix == old(self).grandparent_ix,
                self.seen_key == old(self).seen_key,
                self.overlapped_bytes == old(self).overlapped_bytes,
            decreases self.inputs1.len() - j,
        {
            let num = self.inputs1[j].num;
            self.edit.delete_file(next, num);
            j += 1;
            assert(self.edit@.deleted =~= mid + input_deletions(
                next,
                metas(self.inputs1@).subrange(0, j as int),
            ));
        }
        assert(metas(self.inputs1@).subrange(0, j as int) =~= metas(self.inputs1@));
    }
}

/// The records that take each of `files` out of `level`.
pub open spec fn input_deletions(level: usize, files: Seq<FileMetaView>) -> Seq<(usize, u64)> {
    Seq::new(files.len(), |i: int| (level, files[i].num))
}

/// The sizes of files add up to at most the largest size times their number.
pub proof fn lemma_total_size_bound(files: Seq<FileMetaView>)
    ensures
        0 <= total_size(files) <= files.len() * 0xffff_ffff_ffff_ffff,
    decreases files.len(),
{
    if files.len() > 0 {
        lemma_total_size_bound(files.drop_last());
    }
}

} // verus!
