//! The version set: the current version, the counters of the database, and
//! the step from one version to the next.

use vstd::prelude::*;
use std::collections::HashSet;
use crate::key_types::{
    copy_bytes, internal_key_lt, internal_le, internal_lt, lemma_lex_transitive, lex_lt,
};
use crate::types::{Options, Status, StatusCode, NUM_LEVELS};
use crate::compaction::{copy_files, Compaction};
use crate::key_types::{extract_user_key, user_key_of};
use crate::version::{
    all_sound, closed_over, metas, overlapping, sorted_disjoint, total_file_size, total_size,
    FileMetaData, FileMetaView, FileNum, Version,
};
use crate::key_types::bytes_eq;
use crate::version_edit::{
    dec_edit, enc_edit, new_file_view, EditView, NewFileView, VersionEdit,
};

verus! {

/// The score 1.0 in the unit in which scores are kept. A level is due for
/// compaction from this score on.
pub const SCORE_ONE: u128 = 104_857_600_000;

/// Reads that a new file of `size` bytes may miss before it is due for
/// compaction: one per 16 KiB, at least 100.
pub open spec fn initial_allowance(size: u64) -> u64 {
    if size / 16384 < 100 {
        100
    } else {
        size / 16384
    }
}

/// The descriptor that a version holds for a file that an edit adds.
pub open spec fn as_meta(f: NewFileView) -> FileMetaView {
    FileMetaView {
        allowed_seeks: initial_allowance(f.size),
        num: f.num,
        size: f.size,
        smallest: f.smallest,
        largest: f.largest,
    }
}

/// The files of `base` that `deleted` does not take out of `level`.
pub open spec fn kept_files(base: Seq<FileMetaView>, deleted: Seq<(usize, u64)>, level: usize) -> Seq<
    FileMetaView,
> {
    base.filter(|f: FileMetaView| !deleted.contains((level, f.num)))
}

/// Whether the listed file `g` comes behind the new file `f`: at level 0 by
/// file number, below by smallest key.
pub open spec fn sorts_after(g: FileMetaView, f: FileMetaView, level: usize) -> bool {
    if level == 0 {
        g.num > f.num
    } else {
        internal_lt(f.smallest, g.smallest)
    }
}

/// The place at which `f` joins `files`: before the first file, from `from`
/// on, that comes behind it.
pub open spec fn insert_pos(files: Seq<FileMetaView>, f: FileMetaView, level: usize, from: int) -> int
    decreases files.len() - from,
{
    if from < 0 || from >= files.len() {
        files.len() as int
    } else if sorts_after(files[from], f, level) {
        from
    } else {
        insert_pos(files, f, level, from + 1)
    }
}

/// `files` with the first `n` of `added` that go to `level`, each put in its
/// place.
pub open spec fn with_added(
    files: Seq<FileMetaView>,
    added: Seq<NewFileView>,
    level: usize,
    n: int,
) -> Seq<FileMetaView>
    decreases n,
{
    if n <= 0 {
        files
    } else {
        let prev = with_added(files, added, level, n - 1);
        let f = added[n - 1];
        if f.level == level {
            prev.insert(insert_pos(prev, as_meta(f), level, 0), as_meta(f))
        } else {
            prev
        }
    }
}

/// The files of `level` after `edit`: those of `base` that the edit does not
/// delete, and those that it adds.
pub open spec fn applied_level(base: Seq<FileMetaView>, edit: EditView, level: usize) -> Seq<
    FileMetaView,
> {
    with_added(
        kept_files(base, edit.deleted, level),
        edit.new_files,
        level,
        edit.new_files.len() as int,
    )
}

/// Whether a list of files may stand at `level`: each file holds bytes and
/// has its keys in order, and from level 1 on the files are disjoint and
/// sorted.
pub open spec fn level_valid(files: Seq<FileMetaView>, level: usize) -> bool {
    all_sound(files) && (level >= 1 ==> sorted_disjoint(files))
}

/// Whether `deleted` takes the file `num` out of `level`.
pub fn is_deleted(deleted: &Vec<(usize, FileNum)>, level: usize, num: FileNum) -> (r: bool)
    ensures
        r == deleted@.contains((level, num)),
{
    let mut i: usize = 0;
    while i < deleted.len()
        invariant
            i <= deleted.len(),
            forall|k: int| 0 <= k < i ==> deleted@[k] != (level, num),
        decreases deleted.len() - i,
    {
        if deleted[i].0 == level && deleted[i].1 == num {
            assert(deleted@[i as int] == (level, num));
            return true;
        }
        i += 1;
    }
    false
}

fn keep_files(base: &Vec<FileMetaData>, deleted: &Vec<(usize, FileNum)>, level: usize) -> (r: Vec<
    FileMetaData,
>)
    ensures
        metas(r@) == kept_files(metas(base@), deleted@, level),
{
    let mut out: Vec<FileMetaData> = Vec::new();
    let mut i: usize = 0;
    let ghost pred = |f: FileMetaView| !deleted@.contains((level, f.num));
    while i < base.len()
        invariant
            i <= base.len(),
            pred == (|f: FileMetaView| !deleted@.contains((level, f.num))),
            metas(out@) == metas(base@).subrange(0, i as int).filter(pred),
        decreases base.len() - i,
    {
        proof {
            let next = metas(base@).subrange(0, i + 1);
            assert(next.drop_last() =~= metas(base@).subrange(0, i as int));
            assert(next.last() == base@[i as int]@);
            reveal(Seq::filter);
        }
        if !is_deleted(deleted, level, base[i].num) {
            let ghost before = metas(out@);
            out.push(base[i].copy());
            assert(metas(out@) =~= before.push(base@[i as int]@));
        }
        i += 1;
    }
    assert(metas(base@).subrange(0, i as int) =~= metas(base@));
    out
}

fn find_insert_pos(files: &Vec<FileMetaData>, f: &FileMetaData, level: usize) -> (r: usize)
    ensures
        r == insert_pos(metas(files@), f@, level, 0),
        r <= files@.len(),
{
    let mut i: usize = 0;
    while i < files.len()
        invariant
            i <= files.len(),
            insert_pos(metas(files@), f@, level, 0) == insert_pos(
                metas(files@),
                f@,
                level,
                i as int,
            ),
        decreases files.len() - i,
    {
        let behind = if level == 0 {
            files[i].num > f.num
        } else {
            internal_key_lt(f.smallest.as_slice(), files[i].smallest.as_slice())
        };
        if behind {
            return i;
        }
        i += 1;
    }
    i
}

fn initial_allowed_seeks(size: u64) -> (r: u64)
    ensures
        r == initial_allowance(size),
{
    if size / 16384 < 100 {
        100
    } else {
        size / 16384
    }
}

/// The files of `level` after `edit`.
pub fn apply_level(base: &Vec<FileMetaData>, edit: &VersionEdit, level: usize) -> (r: Vec<
    FileMetaData,
>)
    ensures
        metas(r@) == applied_level(metas(base@), edit@, level),
{
    let mut out = keep_files(base, &edit.deleted, level);
    let mut n: usize = 0;
    while n < edit.new_files.len()
        invariant
            n <= edit.new_files@.len(),
            metas(out@) == with_added(
                kept_files(metas(base@), edit@.deleted, level),
                edit@.new_files,
                level,
                n as int,
            ),
        decreases edit.new_files.len() - n,
    {
        if edit.new_files[n].0 == level {
            let src = &edit.new_files[n].1;
            let f = FileMetaData {
                allowed_seeks: initial_allowed_seeks(src.size),
                num: src.num,
                size: src.size,
                smallest: copy_bytes(src.smallest.as_slice()),
                largest: copy_bytes(src.largest.as_slice()),
            };
            assert(f@ == as_meta(edit@.new_files[n as int]));
            let pos = find_insert_pos(&out, &f, level);
            let ghost before = metas(out@);
            let ghost fv = f@;
            out.insert(pos, f);
            assert(metas(out@) =~= before.insert(pos as int, fv));
        }
        n += 1;
    }
    out
}

/// Whether a list of files may stand at `level`.
pub fn check_level(files: &Vec<FileMetaData>, level: usize) -> (r: bool)
    ensures
        r == level_valid(metas(files@), level),
{
    let ghost m = metas(files@);
    let mut i: usize = 0;
    while i < files.len()
        invariant
            i <= files.len(),
            m == metas(files@),
            forall|k: int| 0 <= k < i ==> (#[trigger] m[k]).sound(),
            level >= 1 ==> forall|a: int, b: int|
                0 <= a < b < i ==> lex_lt((#[trigger] m[a]).hi(), (#[trigger] m[b]).lo()),
        decreases files.len() - i,
    {
        let f = &files[i];
        if f.size == 0 || internal_key_lt(f.largest.as_slice(), f.smallest.as_slice()) {
            assert(!m[i as int].sound());
            return false;
        }
        if level >= 1 && i > 0 {
            let prev = &files[i - 1];
            if !crate::key_types::bytes_lt(
                crate::key_types::extract_user_key(prev.largest.as_slice()),
                crate::key_types::extract_user_key(f.smallest.as_slice()),
            ) {
                assert(!lex_lt(m[i - 1].hi(), m[i as int].lo()));
                return false;
            }
            proof {
                assert forall|a: int, b: int| 0 <= a < b < i + 1 implies lex_lt(
                    (#[trigger] m[a]).hi(),
                    (#[trigger] m[b]).lo(),
                ) by {
                    if b == i && a < i - 1 {
                        assert(lex_lt(m[a].hi(), m[i - 1].lo()));
                        assert(m[i - 1].sound());
                        lemma_lex_transitive(m[a].hi(), m[i - 1].lo(), m[i - 1].hi());
                        lemma_lex_transitive(m[a].hi(), m[i - 1].hi(), m[i as int].lo());
                    }
                }
            }
        }
        i += 1;
    }
    true
}

/// The score of `level` in units of `1 / SCORE_ONE`, capped at the largest
/// number that 128 bits hold: at level 0 the number of files over
/// `L0_COMPACTION_TRIGGER`; below, the bytes of the level over the most that
/// the level is to hold, which is 10 MiB at level 1 and ten times more with
/// each level.
pub open spec fn level_score(files: Seq<FileMetaView>, level: usize) -> int {
    let exact: int = if level == 0 {
        files.len() as int * 26_214_400_000
    } else {
        total_size(files) * score_weight(level)
    };
    if exact > u128::MAX {
        u128::MAX as int
    } else {
        exact
    }
}

/// `SCORE_ONE` over the most bytes that `level` is to hold.
pub open spec fn score_weight(level: usize) -> int {
    if level == 1 {
        10000
    } else if level == 2 {
        1000
    } else if level == 3 {
        100
    } else if level == 4 {
        10
    } else {
        1
    }
}

/// The score of `level` in units of `1 / SCORE_ONE`.
pub fn compute_level_score(files: &Vec<FileMetaData>, level: usize) -> (r: u128)
    requires
        level + 1 < NUM_LEVELS,
    ensures
        r == level_score(metas(files@), level),
{
    if level == 0 {
        let n: u128 = files.len() as u128;
        n * 26_214_400_000u128
    } else {
        let w: u128 = if level == 1 {
            10000
        } else if level == 2 {
            1000
        } else if level == 3 {
            100
        } else if level == 4 {
            10
        } else {
            1
        };
        let total = total_file_size(files);
        if total > u128::MAX / w {
            assert(total * w > u128::MAX) by (nonlinear_arith)
                requires
                    total > u128::MAX / w,
                    0 < w <= 10000,
            ;
            u128::MAX
        } else {
            assert(total * w <= u128::MAX) by (nonlinear_arith)
                requires
                    total <= u128::MAX / w,
                    0 < w <= 10000,
            ;
            total * w
        }
    }
}

/// The first level, among those that can be compacted, whose score is the
/// highest of the first `n`.
pub open spec fn best_level(v: &Version, n: int) -> int
    decreases n,
{
    if n <= 1 {
        0
    } else {
        let b = best_level(v, n - 1);
        if level_score(v.level(n - 1), (n - 1) as usize) > level_score(v.level(b), b as usize) {
            n - 1
        } else {
            b
        }
    }
}

/// Computes the scores of the levels of `v` and records the level with the
/// highest score, and that score.
pub fn finalize(v: &mut Version)
    requires
        old(v).wf(),
    ensures
        final(v).wf(),
        final(v).files == old(v).files,
        final(v).file_to_compact == old(v).file_to_compact,
        final(v).file_to_compact_lvl == old(v).file_to_compact_lvl,
        final(v).compaction_level == Some(best_level(old(v), NUM_LEVELS - 1) as usize),
        final(v).compaction_score == level_score(
            old(v).level(best_level(old(v), NUM_LEVELS - 1)),
            best_level(old(v), NUM_LEVELS - 1) as usize,
        ),
{
    let mut best: usize = 0;
    let mut best_score: u128 = compute_level_score(&v.files[0], 0);
    let mut l: usize = 1;
    while l < NUM_LEVELS - 1
        invariant
            1 <= l <= NUM_LEVELS - 1,
            v.wf(),
            *v == *old(v),
            best == best_level(v, l as int),
            best < l,
            best_score == level_score(v.level(best as int), best),
        decreases NUM_LEVELS - l,
    {
        let score = compute_level_score(&v.files[l], l);
        if score > best_score {
            best = l;
            best_score = score;
        }
        l += 1;
    }
    v.compaction_level = Some(best);
    v.compaction_score = best_score;
    proof {
        assert forall|k: int| 0 <= k < NUM_LEVELS implies all_sound(#[trigger] v.level(k)) by {
            assert(all_sound(old(v).level(k)));
        }
        assert forall|k: int| 1 <= k < NUM_LEVELS implies sorted_disjoint(
            #[trigger] v.level(k),
        ) by {
            assert(sorted_disjoint(old(v).level(k)));
        }
    }
}

/// One step of writing to the manifest, in the order in which the steps are
/// to be taken.
#[derive(Debug)]
pub enum ManifestAction {
    /// Create the manifest file with this number.
    Create(FileNum),
    /// Append this record to the manifest.
    Append(Vec<u8>),
    /// Make sure that what was appended is on disk.
    Sync,
    /// Point `CURRENT` at the manifest with this number.
    SetCurrent(FileNum),
}

/// A step of writing to the manifest, as plain values.
pub ghost enum ActionView {
    Create(u64),
    Append(Seq<u8>),
    Sync,
    SetCurrent(u64),
}

impl View for ManifestAction {
    type V = ActionView;

    open spec fn view(&self) -> ActionView {
        match self {
            ManifestAction::Create(n) => ActionView::Create(*n),
            ManifestAction::Append(b) => ActionView::Append(b@),
            ManifestAction::Sync => ActionView::Sync,
            ManifestAction::SetCurrent(n) => ActionView::SetCurrent(*n),
        }
    }
}

/// The steps of a list, as plain values.
pub open spec fn actions_view(a: Seq<ManifestAction>) -> Seq<ActionView> {
    Seq::new(a.len(), |i: int| a[i]@)
}

/// A step to the next version that is worked out and waits for the manifest
/// to be written.
#[derive(Debug)]
pub struct ManifestWrite {
    /// The version to install once the steps are done.
    pub version: Version,
    /// The steps to take, in order.
    pub actions: Vec<ManifestAction>,
    /// The write-ahead log number that the edit records.
    pub log_num: FileNum,
    /// The previous write-ahead log number that the edit records.
    pub prev_log_num: FileNum,
    /// Whether the steps create the manifest.
    pub creates_manifest: bool,
}

/// The current version and the counters of the database.
#[derive(Debug)]
pub struct VersionSet {
    /// The tunables.
    pub opt: Options,
    /// Name of the comparator that orders the user keys.
    pub comparator_name: Vec<u8>,
    /// The version in force.
    pub current: Version,
    /// Next file number to hand out.
    pub next_file_num: FileNum,
    /// Number of the manifest.
    pub manifest_num: FileNum,
    /// Last sequence number handed out.
    pub last_seq: u64,
    /// Number of the write-ahead log in use.
    pub log_num: FileNum,
    /// Number of the write-ahead log before that.
    pub prev_log_num: FileNum,
    /// Per level, the key behind which the next compaction of the level
    /// starts; empty where none is set.
    pub compaction_ptrs: Vec<Vec<u8>>,
    /// Whether the manifest is open for appending.
    pub manifest_open: bool,
}

/// The files of the first `n` levels of `v`, as an edit that adds them would
/// list them.
pub open spec fn version_files(v: &Version, n: int) -> Seq<NewFileView>
    decreases n,
{
    if n <= 0 {
        Seq::empty()
    } else {
        version_files(v, n - 1) + Seq::new(
            v.level(n - 1).len(),
            |i: int| new_file_view((n - 1) as usize, v.level(n - 1)[i]),
        )
    }
}

/// The compaction pointers that are set among the first `n` levels.
pub open spec fn set_pointers(ptrs: Seq<Vec<u8>>, n: int) -> Seq<(usize, Seq<u8>)>
    decreases n,
{
    if n <= 0 {
        Seq::empty()
    } else if ptrs[n - 1]@.len() > 0 {
        set_pointers(ptrs, n - 1).push(((n - 1) as usize, ptrs[n - 1]@))
    } else {
        set_pointers(ptrs, n - 1)
    }
}

/// `edit` with the fields that a manifest record always carries filled in
/// from the counters.
pub open spec fn filled_in(edit: EditView, log_num: u64, prev_log_num: u64, next: u64, last: u64) -> EditView {
    EditView {
        log_number: Some(
            match edit.log_number {
                Some(n) => n,
                None => log_num,
            },
        ),
        prev_log_number: Some(
            match edit.prev_log_number {
                Some(n) => n,
                None => prev_log_num,
            },
        ),
        next_file_number: Some(next),
        last_seq: Some(last),
        ..edit
    }
}

impl VersionSet {
    /// The current version is well-formed and every level has its pointer.
    pub open spec fn wf(&self) -> bool {
        &&& self.current.wf()
        &&& self.compaction_ptrs@.len() == NUM_LEVELS
    }

    /// The edit that, applied to no files, gives the current state: the
    /// comparator's name, the pointers that are set, and every file.
    pub open spec fn snapshot(&self) -> EditView {
        EditView {
            comparator: Some(self.comparator_name@),
            compaction_ptrs: set_pointers(self.compaction_ptrs@, NUM_LEVELS as int),
            new_files: version_files(&self.current, NUM_LEVELS as int),
            ..EditView::empty()
        }
    }

    /// The steps that write `edit` to the manifest: where none is open, the
    /// manifest is created and begins with the snapshot, and `CURRENT` is set
    /// last.
    pub open spec fn manifest_steps(&self, edit: EditView) -> Seq<ActionView> {
        if self.manifest_open {
            seq![ActionView::Append(enc_edit(edit)), ActionView::Sync]
        } else {
            seq![
                ActionView::Create(self.manifest_num),
                ActionView::Append(enc_edit(self.snapshot())),
                ActionView::Append(enc_edit(edit)),
                ActionView::Sync,
                ActionView::SetCurrent(self.manifest_num),
            ]
        }
    }

    /// A version set without files. File numbers start at 2.
    pub fn new(opt: Options, comparator_name: &[u8]) -> (r: VersionSet)
        ensures
            r.wf(),
            r.opt == opt,
            r.comparator_name@ == comparator_name@,
            r.next_file_num == 2,
            r.manifest_num == 0,
            r.last_seq == 0,
            r.log_num == 0,
            r.prev_log_num == 0,
            !r.manifest_open,
            forall|l: int| 0 <= l < NUM_LEVELS ==> (#[trigger] r.current.level(l)).len() == 0,
            forall|l: int| 0 <= l < NUM_LEVELS ==> (#[trigger] r.compaction_ptrs@[l])@.len() == 0,
            r.current.file_to_compact.is_none(),
            r.current.compaction_level.is_none(),
    {
        let mut ptrs: Vec<Vec<u8>> = Vec::new();
        let mut l: usize = 0;
        while l < NUM_LEVELS
            invariant
                l <= NUM_LEVELS,
                ptrs@.len() == l,
                forall|k: int| 0 <= k < l ==> (#[trigger] ptrs@[k])@.len() == 0,
            decreases NUM_LEVELS - l,
        {
            ptrs.push(Vec::new());
            l += 1;
        }
        VersionSet {
            opt,
            comparator_name: copy_bytes(comparator_name),
            current: Version::new(),
            next_file_num: 2,
            manifest_num: 0,
            last_seq: 0,
            log_num: 0,
            prev_log_num: 0,
            compaction_ptrs: ptrs,
            manifest_open: false,
        }
    }

    /// Hands out the next file number.
    pub fn new_file_number(&mut self) -> (r: FileNum)
        requires
            old(self).next_file_num < u64::MAX,
        ensures
            r == old(self).next_file_num,
            *final(self) == (VersionSet { next_file_num: (r + 1) as u64, ..*old(self) }),
    {
        let n = self.next_file_num;
        self.next_file_num = n + 1;
        n
    }

    /// Takes back `n` where it is the number handed out last.
    pub fn reuse_file_number(&mut self, n: FileNum)
        ensures
            *final(self) == (VersionSet {
                next_file_num: if old(self).next_file_num == n + 1 {
                    n
                } else {
                    old(self).next_file_num
                },
                ..*old(self)
            }),
    {
        if self.next_file_num > 0 && self.next_file_num - 1 == n {
            self.next_file_num = n;
        }
    }

    /// Makes sure that `n` is not handed out later.
    pub fn mark_file_number_used(&mut self, n: FileNum)
        requires
            n < u64::MAX,
        ensures
            *final(self) == (VersionSet {
                next_file_num: if old(self).next_file_num <= n {
                    (n + 1) as u64
                } else {
                    old(self).next_file_num
                },
                ..*old(self)
            }),
    {
        if self.next_file_num <= n {
            self.next_file_num = n + 1;
        }
    }

    /// Whether a compaction is due: a level's score has reached 1, or reads
    /// have marked a file.
    pub fn needs_compaction(&self) -> (r: bool)
        ensures
            r == (self.current.compaction_score >= SCORE_ONE
                || self.current.file_to_compact.is_some()),
    {
        self.current.compaction_score >= SCORE_ONE || self.current.file_to_compact.is_some()
    }

    /// Number of files at `level` in the current version.
    pub fn num_level_files(&self, level: usize) -> (r: usize)
        requires
            self.wf(),
            level < NUM_LEVELS,
        ensures
            r == self.current.level(level as int).len(),
    {
        self.current.num_level_files(level)
    }

    /// Puts `v` in force.
    pub fn add_version(&mut self, v: Version)
        requires
            old(self).wf(),
            v.wf(),
        ensures
            final(self).wf(),
            *final(self) == (VersionSet { current: v, ..*old(self) }),
    {
        self.current = v;
    }

    /// The numbers of the files of the current version, as a set.
    pub fn live_files(&self) -> (r: HashSet<FileNum>)
        requires
            self.wf(),
        ensures
            forall|n: u64|
                r@.contains(n) <==> exists|l: int, i: int|
                    0 <= l < NUM_LEVELS && 0 <= i < self.current.level(l).len()
                        && #[trigger] self.current.level(l)[i].num == n,
    {
        broadcast use vstd::std_specs::hash::group_hash_axioms;

        let list = self.live_list();
        let mut set: HashSet<FileNum> = HashSet::new();
        let mut i: usize = 0;
        while i < list.len()
            invariant
                i <= list@.len(),
                forall|n: u64| set@.contains(n) <==> list@.subrange(0, i as int).contains(n),
            decreases list.len() - i,
        {
            let ghost before = list@.subrange(0, i as int);
            set.insert(list[i]);
            i += 1;
            proof {
                let now = list@.subrange(0, i as int);
                assert(now =~= before.push(list@[i - 1]));
                assert forall|n: u64| set@.contains(n) <==> now.contains(n) by {
                    if now.contains(n) {
                        let k = choose|k: int| 0 <= k < now.len() && now[k] == n;
                        if k < before.len() {
                            assert(before[k] == n);
                        }
                    }
                    if before.contains(n) {
                        let k = choose|k: int| 0 <= k < before.len() && before[k] == n;
                        assert(now[k] == n);
                    }
                    if n == list@[i - 1] {
                        assert(now[i - 1] == n);
                    }
                }
            }
        }
        assert(list@.subrange(0, i as int) =~= list@);
        set
    }

    fn live_list(&self) -> (r: Vec<FileNum>)
        requires
            self.wf(),
        ensures
            forall|n: u64|
                r@.contains(n) <==> exists|l: int, i: int|
                    0 <= l < NUM_LEVELS && 0 <= i < self.current.level(l).len()
                        && #[trigger] self.current.level(l)[i].num == n,
    {
        let mut out: Vec<FileNum> = Vec::new();
        let mut l: usize = 0;
        while l < NUM_LEVELS
            invariant
                l <= NUM_LEVELS,
                self.wf(),
                forall|n: u64|
                    out@.contains(n) <==> exists|a: int, i: int|
                        0 <= a < l && 0 <= i < self.current.level(a).len()
                            && #[trigger] self.current.level(a)[i].num == n,
            decreases NUM_LEVELS - l,
        {
            let files = &self.current.files[l];
            let mut i: usize = 0;
            while i < files.len()
                invariant
                    l < NUM_LEVELS,
                    self.wf(),
                    files == &self.current.files@[l as int],
                    i <= files@.len(),
                    forall|n: u64|
                        out@.contains(n) <==> (exists|a: int, k: int|
                            0 <= a < l && 0 <= k < self.current.level(a).len()
                                && #[trigger] self.current.level(a)[k].num == n) || (exists|
                            k: int,
                        |
                            0 <= k < i && #[trigger] self.current.level(l as int)[k].num == n),
                decreases files.len() - i,
            {
                let ghost before = out@;
                out.push(files[i].num);
                proof {
                    let added = files@[i as int].num;
                    assert(self.current.level(l as int)[i as int].num == added);
                    assert forall|n: u64| out@.contains(n) <==> (exists|a: int, k: int|
                        0 <= a < l && 0 <= k < self.current.level(a).len()
                            && #[trigger] self.current.level(a)[k].num == n) || (exists|k: int|
                        0 <= k < i + 1 && #[trigger] self.current.level(l as int)[k].num
                            == n) by {
                        if out@.contains(n) {
                            let ix = choose|ix: int| 0 <= ix < out@.len() && out@[ix] == n;
                            if ix < before.len() {
                                assert(before[ix] == n);
                                assert(before.contains(n));
                            } else {
                                assert(n == added);
                            }
                        }
                        if before.contains(n) {
                            let ix = choose|ix: int| 0 <= ix < before.len() && before[ix] == n;
                            assert(out@[ix] == n);
                        }
                        if n == added {
                            assert(out@[before.len() as int] == n);
                        }
                    }
                }
                i += 1;
            }
            l += 1;
        }
        out
    }

    /// The version that `edit` leads to from the current one: at each level
    /// the files that the edit does not delete and those that it adds, each
    /// new file in its place. Fails with `Corruption` where a level of the
    /// result would hold an empty file, a file whose keys are out of order or, from level 1
    /// on, files that overlap or are out of order.
    pub fn apply(&self, edit: &VersionEdit) -> (r: Result<Version, Status>)
        requires
            self.wf(),
        ensures
            r.is_ok() == applies(&self.current, edit@),
            r.is_ok() ==> {
                let v = r.unwrap();
                &&& v.wf()
                &&& forall|l: int|
                    0 <= l < NUM_LEVELS ==> #[trigger] v.level(l) == applied(
                        &self.current,
                        edit@,
                        l,
                    )
                &&& v.file_to_compact.is_none()
            },
            r.is_err() ==> r.unwrap_err().spec_code() == StatusCode::Corruption,
    {
        apply_edit(&self.current, edit)
    }
}

/// The version that `edit` leads to from `base`: at each level
/// the files that the edit does not delete and those that it adds, each
/// new file in its place. Fails with `Corruption` where a level of the
/// result would hold an empty file, a file whose keys are out of order or, from level 1
/// on, files that overlap or are out of order.
pub fn apply_edit(base: &Version, edit: &VersionEdit) -> (r: Result<Version, Status>)
        requires
            base.wf(),
        ensures
            r.is_ok() == applies(base, edit@),
            r.is_ok() ==> {
                let v = r.unwrap();
                &&& v.wf()
                &&& forall|l: int|
                    0 <= l < NUM_LEVELS ==> #[trigger] v.level(l) == applied(
                        base,
                        edit@,
                        l,
                    )
                &&& v.file_to_compact.is_none()
            },
            r.is_err() ==> r.unwrap_err().spec_code() == StatusCode::Corruption,
{
    let mut files: Vec<Vec<FileMetaData>> = Vec::new();
    let mut l: usize = 0;
    while l < NUM_LEVELS
        invariant
            l <= NUM_LEVELS,
            base.wf(),
            files@.len() == l,
            forall|k: int|
                0 <= k < l ==> metas((#[trigger] files@[k])@) == applied(
                    base,
                    edit@,
                    k,
                ),
            forall|k: int|
                0 <= k < l ==> level_valid(
                    #[trigger] applied(base, edit@, k),
                    k as usize,
                ),
        decreases NUM_LEVELS - l,
    {
        let level_files = apply_level(&base.files[l], edit, l);
        assert(metas(level_files@) == applied(base, edit@, l as int));
        if !check_level(&level_files, l) {
            assert(!level_valid(applied(base, edit@, l as int), l));
            return Err(Status::new(StatusCode::Corruption, "files of a level overlap"));
        }
        files.push(level_files);
        l += 1;
    }
    let v = Version {
        files,
        file_to_compact: None,
        file_to_compact_lvl: 0,
        compaction_level: None,
        compaction_score: 0,
    };
    proof {
        assert forall|k: int| 0 <= k < NUM_LEVELS implies #[trigger] v.level(k) == applied(
            base,
            edit@,
            k,
        ) by {
            assert(metas(v.files@[k]@) == applied(base, edit@, k));
        }
        assert forall|k: int| 0 <= k < NUM_LEVELS implies all_sound(#[trigger] v.level(k)) by {
            assert(level_valid(applied(base, edit@, k), k as usize));
        }
        assert forall|k: int| 1 <= k < NUM_LEVELS implies sorted_disjoint(
            #[trigger] v.level(k),
        ) by {
            assert(level_valid(applied(base, edit@, k), k as usize));
        }
    }
    Ok(v)
}


impl VersionSet {
    /// The edit that, applied to no files, gives the current state.
    pub fn snapshot_edit(&self) -> (r: VersionEdit)
        requires
            self.wf(),
        ensures
            r@ == self.snapshot(),
    {
        let mut edit = VersionEdit::new();
        edit.set_comparator_name(self.comparator_name.as_slice());
        let mut p: usize = 0;
        while p < NUM_LEVELS
            invariant
                p <= NUM_LEVELS,
                self.wf(),
                edit@ == (EditView {
                    comparator: Some(self.comparator_name@),
                    compaction_ptrs: set_pointers(self.compaction_ptrs@, p as int),
                    ..EditView::empty()
                }),
            decreases NUM_LEVELS - p,
        {
            if self.compaction_ptrs[p].len() > 0 {
                edit.set_compact_pointer(p, self.compaction_ptrs[p].as_slice());
            }
            p += 1;
        }
        let mut l: usize = 0;
        while l < NUM_LEVELS
            invariant
                l <= NUM_LEVELS,
                self.wf(),
                edit@ == (EditView {
                    new_files: version_files(&self.current, l as int),
                    ..self.snapshot()
                }),
            decreases NUM_LEVELS - l,
        {
            let files = &self.current.files[l];
            let ghost head = version_files(&self.current, l as int);
            let mut i: usize = 0;
            while i < files.len()
                invariant
                    l < NUM_LEVELS,
                    self.wf(),
                    files == self.current.files@[l as int],
                    i <= files@.len(),
                    head == version_files(&self.current, l as int),
                    edit@ == (EditView {
                        new_files: head + Seq::new(
                            i as nat,
                            |k: int| new_file_view(l, self.current.level(l as int)[k]),
                        ),
                        ..self.snapshot()
                    }),
                decreases files.len() - i,
            {
                edit.add_file(l, files[i].copy());
                i += 1;
                assert(edit@.new_files =~= head + Seq::new(
                    i as nat,
                    |k: int| new_file_view(l, self.current.level(l as int)[k]),
                ));
            }
            l += 1;
            assert(edit@.new_files =~= version_files(&self.current, l as int));
        }
        edit
    }

    /// Works out the step that `edit` makes from the current version, and
    /// the steps that write it to the manifest. The edit is filled in from
    /// the counters, applied, and the scores of the new version are computed.
    /// The version set itself changes only with `install`, once the steps
    /// are done.
    pub fn log_and_apply(&self, edit: VersionEdit) -> (r: Result<ManifestWrite, Status>)
        requires
            self.wf(),
        ensures
            r.is_ok() == applies(&self.current, edit@),
            r.is_err() ==> r.unwrap_err().spec_code() == StatusCode::Corruption,
            r.is_ok() ==> ({
                let w = r.unwrap();
                let e = filled_in(
                    edit@,
                    self.log_num,
                    self.prev_log_num,
                    self.next_file_num,
                    self.last_seq,
                );
                &&& w.version.wf()
                &&& forall|l: int|
                    0 <= l < NUM_LEVELS ==> #[trigger] w.version.level(l) == applied(
                        &self.current,
                        edit@,
                        l,
                    )
                &&& w.version.file_to_compact.is_none()
                &&& w.version.compaction_level == Some(
                    best_level(&w.version, NUM_LEVELS - 1) as usize,
                )
                &&& w.version.compaction_score == level_score(
                    w.version.level(best_level(&w.version, NUM_LEVELS - 1)),
                    best_level(&w.version, NUM_LEVELS - 1) as usize,
                )
                &&& actions_view(w.actions@) == self.manifest_steps(e)
                &&& Some(w.log_num) == e.log_number
                &&& Some(w.prev_log_num) == e.prev_log_number
                &&& w.creates_manifest == !self.manifest_open
            }),
    {
        let mut edit = edit;
        let ghost given = edit@;
        let log_num = match edit.log_number {
            Some(n) => n,
            None => self.log_num,
        };
        let prev_log_num = match edit.prev_log_number {
            Some(n) => n,
            None => self.prev_log_num,
        };
        edit.set_log_num(log_num);
        edit.set_prev_log_num(prev_log_num);
        edit.set_next_file(self.next_file_num);
        edit.set_last_seq(self.last_seq);
        let ghost e = edit@;
        assert(e == filled_in(
            given,
            self.log_num,
            self.prev_log_num,
            self.next_file_num,
            self.last_seq,
        ));
        assert(applies(&self.current, e) == applies(&self.current, given)) by {
            assert forall|l: int| 0 <= l < NUM_LEVELS implies applied(&self.current, e, l)
                == applied(&self.current, given, l) by {}
        }
        let mut version = match self.apply(&edit) {
            Ok(v) => v,
            Err(st) => {
                return Err(st);
            },
        };
        let ghost unscored = version;
        finalize(&mut version);
        proof {
            assert forall|l: int| 0 <= l < NUM_LEVELS implies #[trigger] version.level(l)
                == applied(&self.current, given, l) by {
                assert(unscored.level(l) == applied(&self.current, e, l));
            }
            lemma_best_level_same(&unscored, &version, NUM_LEVELS - 1);
        }
        let mut actions: Vec<ManifestAction> = Vec::new();
        if !self.manifest_open {
            let snap = self.snapshot_edit();
            actions.push(ManifestAction::Create(self.manifest_num));
            actions.push(ManifestAction::Append(snap.encode()));
        }
        actions.push(ManifestAction::Append(edit.encode()));
        actions.push(ManifestAction::Sync);
        if !self.manifest_open {
            actions.push(ManifestAction::SetCurrent(self.manifest_num));
        }
        assert(actions_view(actions@) =~= self.manifest_steps(e));
        Ok(
            ManifestWrite {
                version,
                actions,
                log_num,
                prev_log_num,
                creates_manifest: !self.manifest_open,
            },
        )
    }

    /// Puts the version of `w` in force, once its steps are done.
    pub fn install(&mut self, w: ManifestWrite)
        requires
            old(self).wf(),
            w.version.wf(),
        ensures
            final(self).wf(),
            *final(self) == (VersionSet {
                current: w.version,
                log_num: w.log_num,
                prev_log_num: w.prev_log_num,
                manifest_open: true,
                ..*old(self)
            }),
    {
        self.current = w.version;
        self.log_num = w.log_num;
        self.prev_log_num = w.prev_log_num;
        self.manifest_open = true;
    }

    /// What is left to do where a step of `w` failed: the number of the
    /// manifest to delete, where the steps were to create one. `CURRENT` and
    /// the version set stay as they are.
    pub fn abandon(&self, w: &ManifestWrite) -> (r: Option<FileNum>)
        ensures
            r == if w.creates_manifest {
                Some(self.manifest_num)
            } else {
                None
            },
    {
        if w.creates_manifest {
            Some(self.manifest_num)
        } else {
            None
        }
    }
}

/// The smallest key, in internal-key order, among the first `n` files.
pub open spec fn smallest_key(files: Seq<FileMetaView>, n: int) -> Seq<u8>
    decreases n,
{
    if n <= 1 {
        files[0].smallest
    } else {
        let p = smallest_key(files, n - 1);
        if internal_lt(files[n - 1].smallest, p) {
            files[n - 1].smallest
        } else {
            p
        }
    }
}

/// The largest key, in internal-key order, among the first `n` files.
pub open spec fn largest_key(files: Seq<FileMetaView>, n: int) -> Seq<u8>
    decreases n,
{
    if n <= 1 {
        files[0].largest
    } else {
        let p = largest_key(files, n - 1);
        if internal_lt(p, files[n - 1].largest) {
            files[n - 1].largest
        } else {
            p
        }
    }
}

/// The smallest and the largest key among `files`.
pub fn get_range(files: &Vec<FileMetaData>) -> (r: (Vec<u8>, Vec<u8>))
    requires
        files@.len() > 0,
    ensures
        r.0@ == smallest_key(metas(files@), files@.len() as int),
        r.1@ == largest_key(metas(files@), files@.len() as int),
{
    let mut lo: usize = 0;
    let mut hi: usize = 0;
    let mut i: usize = 1;
    while i < files.len()
        invariant
            1 <= i <= files@.len(),
            lo < i,
            hi < i,
            files@[lo as int].smallest@ == smallest_key(metas(files@), i as int),
            files@[hi as int].largest@ == largest_key(metas(files@), i as int),
        decreases files.len() - i,
    {
        if internal_key_lt(files[i].smallest.as_slice(), files[lo].smallest.as_slice()) {
            lo = i;
        }
        if internal_key_lt(files[hi].largest.as_slice(), files[i].largest.as_slice()) {
            hi = i;
        }
        i += 1;
    }
    (copy_bytes(files[lo].smallest.as_slice()), copy_bytes(files[hi].largest.as_slice()))
}

/// The smallest and the largest key among the files of both lists.
pub fn get_range2(a: &Vec<FileMetaData>, b: &Vec<FileMetaData>) -> (r: (Vec<u8>, Vec<u8>))
    requires
        a@.len() > 0,
    ensures
        r.0@ == smallest_key(metas(a@) + metas(b@), (a@.len() + b@.len()) as int),
        r.1@ == largest_key(metas(a@) + metas(b@), (a@.len() + b@.len()) as int),
{
    let mut all = copy_files(a);
    let mut i: usize = 0;
    while i < b.len()
        invariant
            i <= b@.len(),
            metas(all@) == metas(a@) + metas(b@).subrange(0, i as int),
        decreases b.len() - i,
    {
        let ghost before = metas(all@);
        all.push(b[i].copy());
        assert(metas(all@) =~= before.push(b@[i as int]@));
        i += 1;
        assert(metas(all@) =~= metas(a@) + metas(b@).subrange(0, i as int));
    }
    assert(metas(b@).subrange(0, i as int) =~= metas(b@));
    get_range(&all)
}

/// The user keys that the keys of `files` span: the user key of the smallest
/// key and that of the largest.
pub open spec fn user_range(files: Seq<FileMetaView>) -> (Seq<u8>, Seq<u8>) {
    (
        user_key_of(smallest_key(files, files.len() as int)),
        user_key_of(largest_key(files, files.len() as int)),
    )
}

/// The files one level below `l` that meet the range of the inputs `m0`.
pub open spec fn next_inputs(v: &Version, l: int, m0: Seq<FileMetaView>) -> Seq<FileMetaView> {
    overlapping(v.level(l + 1), user_range(m0).0, user_range(m0).1)
}

/// The files at `l` that meet the range of the inputs `m0` and of the files
/// one level below that go with them.
pub open spec fn grown_inputs(v: &Version, l: int, m0: Seq<FileMetaView>) -> Seq<FileMetaView> {
    overlapping(
        v.level(l),
        user_range(m0 + next_inputs(v, l, m0)).0,
        user_range(m0 + next_inputs(v, l, m0)).1,
    )
}

/// Whether the inputs `m0` at level `l` grow to `grown_inputs`: files one
/// level below go with them, growing adds a file at `l` and none one level
/// below, and the grown inputs of both levels stay under `limit` bytes.
pub open spec fn grows(v: &Version, limit: int, l: int, m0: Seq<FileMetaView>) -> bool {
    let m1 = next_inputs(v, l, m0);
    let e0 = grown_inputs(v, l, m0);
    &&& m1.len() > 0
    &&& e0.len() > m0.len()
    &&& total_size(m1) + total_size(e0) < limit
    &&& next_inputs(v, l, e0).len() == m1.len()
}

/// The place of the file at which the next compaction of a level starts: the
/// first file, from `from` on, whose largest key sorts behind the level's
/// pointer; the first file of the level where the pointer is not set or no
/// file is behind it.
pub open spec fn start_file(files: Seq<FileMetaView>, ptr: Seq<u8>, from: int) -> int
    decreases files.len() - from,
{
    if from < 0 || from >= files.len() {
        0
    } else if ptr.len() == 0 || internal_lt(ptr, files[from].largest) {
        from
    } else {
        start_file(files, ptr, from + 1)
    }
}

/// The place of the first file with the number `num`; the number of files
/// where there is none.
pub open spec fn file_with_num(files: Seq<FileMetaView>, num: u64, from: int) -> int
    decreases files.len() - from,
{
    if from < 0 || from >= files.len() {
        files.len() as int
    } else if files[from].num == num {
        from
    } else {
        file_with_num(files, num, from + 1)
    }
}

impl VersionSet {
    /// Whether the highest score asks for a compaction that can be made: it
    /// has reached 1, at a level that has files and a level below it.
    pub open spec fn size_triggered(&self) -> bool {
        &&& self.current.compaction_score >= SCORE_ONE
        &&& self.current.compaction_level.is_some()
        &&& self.current.compaction_level.unwrap() + 1 < NUM_LEVELS
        &&& self.current.level(self.current.compaction_level.unwrap() as int).len() > 0
    }

    /// Whether reads ask for a compaction that can be made: a file is
    /// marked, it stands at the level recorded, and there is a level below.
    pub open spec fn seek_triggered(&self) -> bool {
        &&& self.current.file_to_compact.is_some()
        &&& self.current.file_to_compact_lvl + 1 < NUM_LEVELS
        &&& file_with_num(
            self.current.level(self.current.file_to_compact_lvl as int),
            self.current.file_to_compact.unwrap(),
            0,
        ) < self.current.level(self.current.file_to_compact_lvl as int).len()
    }

    /// The level that the next compaction compacts: by size first, by reads
    /// second.
    pub open spec fn pick_level(&self) -> usize {
        if self.size_triggered() {
            self.current.compaction_level.unwrap()
        } else {
            self.current.file_to_compact_lvl
        }
    }

    /// The file with which the next compaction starts.
    pub open spec fn pick_file(&self) -> FileMetaView {
        let files = self.current.level(self.pick_level() as int);
        if self.size_triggered() {
            files[start_file(files, self.compaction_ptrs@[self.pick_level() as int]@, 0)]
        } else {
            files[file_with_num(files, self.current.file_to_compact.unwrap(), 0)]
        }
    }

    /// Whether `c` is the compaction that this version set picks: at the
    /// level picked, with inputs that hold the file picked and come from the
    /// level, grown as `grows` says below level 0; with the files one level
    /// down that meet the range of the inputs, the grandparents that meet
    /// the range of all inputs, the deeper levels of the current version, the
    /// overlap limit of the options, and an edit that records the level's
    /// new compaction pointer and nothing else.
    pub open spec fn picked(&self, c: Compaction) -> bool {
        let l = self.pick_level();
        let m0 = metas(c.inputs0@);
        let m1 = metas(c.inputs1@);
        let all = m0 + m1;
        &&& c.wf()
        &&& c.level == l
        &&& m0.len() > 0
        &&& m0.contains(self.pick_file())
        &&& forall|i: int| 0 <= i < m0.len() ==> self.current.level(l as int).contains(#[trigger] m0[i])
        &&& m1 == next_inputs(&self.current, l as int, m0)
        &&& l >= 1 ==> m0 == if grows(
            &self.current,
            self.opt.spec_expanded_compaction_byte_size_limit(),
            l as int,
            seq![self.pick_file()],
        ) {
            grown_inputs(&self.current, l as int, seq![self.pick_file()])
        } else {
            seq![self.pick_file()]
        }
        &&& metas(c.grandparents@) == if l + 2 < NUM_LEVELS {
            overlapping(self.current.level(l + 2), user_range(all).0, user_range(all).1)
        } else {
            Seq::empty()
        }
        &&& c.grandparent_ix == 0
        &&& !c.seen_key
        &&& c.overlapped_bytes == 0
        &&& c.base_level_for_matches(&self.current)
        &&& c.edit@ == (EditView {
            compaction_ptrs: seq![(l, largest_key(m0, m0.len() as int))],
            ..EditView::empty()
        })
        &&& c.max_grandparent_overlap_bytes == self.opt.spec_max_grandparent_overlap_bytes()
    }

    #[verifier::loop_isolation(false)]
    fn pick_start(&self) -> (r: Option<(usize, usize)>)
        requires
            self.wf(),
        ensures
            r.is_some() == (self.size_triggered() || self.seek_triggered()),
            r.is_some() ==> r.unwrap().0 == self.pick_level() && r.unwrap().0 + 1 < NUM_LEVELS
                && r.unwrap().1 < self.current.level(r.unwrap().0 as int).len()
                && self.current.level(r.unwrap().0 as int)[r.unwrap().1 as int]
                == self.pick_file(),
    {
        let by_size = match self.current.compaction_level {
            Some(l) => self.current.compaction_score >= SCORE_ONE && l < NUM_LEVELS - 1
                && self.current.files[l].len() > 0,
            None => false,
        };
        if by_size {
            let level = self.current.compaction_level.unwrap();
            let files = &self.current.files[level];
            let ptr = &self.compaction_ptrs[level];
            let ghost m = self.current.level(level as int);
            let mut i: usize = 0;
            while i < files.len()
                invariant
                    i <= files@.len(),
                    m == metas(files@),
                    start_file(m, ptr@, 0) == start_file(m, ptr@, i as int),
                decreases files.len() - i,
            {
                if ptr.len() == 0 || internal_key_lt(ptr.as_slice(), files[i].largest.as_slice()) {
                    return Some((level, i));
                }
                i += 1;
            }
            Some((level, 0))
        } else {
            match self.current.file_to_compact {
                None => None,
                Some(num) => {
                    let level = self.current.file_to_compact_lvl;
                    if level >= NUM_LEVELS - 1 {
                        return None;
                    }
                    let files = &self.current.files[level];
                    let ghost m = self.current.level(level as int);
                    let mut i: usize = 0;
                    while i < files.len()
                        invariant
                            i <= files@.len(),
                            m == metas(files@),
                            file_with_num(m, num, 0) == file_with_num(m, num, i as int),
                        decreases files.len() - i,
                    {
                        if files[i].num == num {
                            return Some((level, i));
                        }
                        i += 1;
                    }
                    None
                },
            }
        }
    }

    /// Picks the next compaction: by size where a level's score has reached
    /// 1, else by reads where a file is marked, else none.
    ///
    /// The inputs at the level start from one file: by size, the first file
    /// behind the level's compaction pointer, or the level's first file; by
    /// reads, the marked file. At level 0 every overlapping file joins. The
    /// inputs at the next level are the files that meet the key range of
    /// those; the level's own inputs may then grow where that adds no file at
    /// the next level and the inputs stay under the size limit. The
    /// grandparents are the files two levels down that meet the range of all
    /// inputs. The level's compaction pointer moves to the largest key of its
    /// inputs, here and in the compaction's edit.
    pub fn pick_compaction(&mut self) -> (r: Option<Compaction>)
        requires
            old(self).wf(),
        ensures
            final(self).wf(),
            r.is_some() == (old(self).size_triggered() || old(self).seek_triggered()),
            r.is_none() ==> *final(self) == *old(self),
            r.is_some() ==> old(self).picked(r.unwrap()),
            r.is_some() ==> ({
                let c = r.unwrap();
                let l = old(self).pick_level();
                let m0 = metas(c.inputs0@);
                let m1 = metas(c.inputs1@);
                let all = m0 + m1;
                &&& c.wf()
                &&& c.level == l
                &&& m0.len() > 0
                &&& m0.contains(old(self).pick_file())
                &&& forall|i: int|
                    0 <= i < m0.len() ==> old(self).current.level(l as int).contains(
                        #[trigger] m0[i],
                    )
                &&& m1 == overlapping(
                    old(self).current.level(l + 1),
                    user_key_of(smallest_key(m0, m0.len() as int)),
                    user_key_of(largest_key(m0, m0.len() as int)),
                )
                &&& l >= 1 ==> m0 == if grows(
                    &old(self).current,
                    old(self).opt.spec_expanded_compaction_byte_size_limit(),
                    l as int,
                    seq![old(self).pick_file()],
                ) {
                    grown_inputs(&old(self).current, l as int, seq![old(self).pick_file()])
                } else {
                    seq![old(self).pick_file()]
                }
                &&& metas(c.grandparents@) == if l + 2 < NUM_LEVELS {
                    overlapping(
                        old(self).current.level(l + 2),
                        user_key_of(smallest_key(all, all.len() as int)),
                        user_key_of(largest_key(all, all.len() as int)),
                    )
                } else {
                    Seq::empty()
                }
                &&& c.base_level_for_matches(&old(self).current)
                &&& c.edit@ == (EditView {
                    compaction_ptrs: seq![(l, largest_key(m0, m0.len() as int))],
                    ..EditView::empty()
                })
                &&& c.max_grandparent_overlap_bytes == old(
                    self,
                ).opt.spec_max_grandparent_overlap_bytes()
                &&& final(self).compaction_ptrs@[l as int]@ == largest_key(m0, m0.len() as int)
                &&& final(self).current == old(self).current
                &&& final(self).next_file_num == old(self).next_file_num
                &&& final(self).last_seq == old(self).last_seq
                &&& final(self).log_num == old(self).log_num
                &&& final(self).manifest_num == old(self).manifest_num
            }),
    {
        let (level, ix) = match self.pick_start() {
            None => {
                return None;
            },
            Some(p) => p,
        };
        let opt = self.opt;
        let version = &self.current;
        let ghost lv = version.level(level as int);
        let mut c = Compaction::new(&opt, level, version);
        let start = version.files[level][ix].copy();
        let ghost sv = start@;
        assert(sv == lv[ix as int]);
        let mut inputs0: Vec<FileMetaData> = Vec::new();
        if level == 0 {
            let lo = copy_bytes(extract_user_key(start.smallest.as_slice()));
            let hi = copy_bytes(extract_user_key(start.largest.as_slice()));
            inputs0 = version.overlapping_inputs(0, lo.as_slice(), hi.as_slice());
            proof {
                let m0 = metas(inputs0@);
                let (wlo, whi) = choose|wlo: Seq<u8>, whi: Seq<u8>|
                    closed_over(lv, m0, lo@, hi@, wlo, whi);
                assert(all_sound(lv));
                assert(sv.sound());
                lemma_lex_transitive(wlo, sv.lo(), sv.hi());
                lemma_lex_transitive(sv.lo(), sv.hi(), whi);
                assert(sv.overlaps(wlo, whi));
                crate::version::lemma_filter_has(
                    lv,
                    |f: FileMetaView| f.overlaps(wlo, whi),
                    ix as int,
                );
                lemma_filtered_are_members(lv, wlo, whi);
            }
        } else {
            inputs0.push(start);
            assert(metas(inputs0@) =~= seq![sv]);
            assert(metas(inputs0@)[0] == sv);
            assert(lv.contains(sv));
        }
        assert(metas(inputs0@).contains(sv));
        let (smallest, largest) = get_range(&inputs0);
        let mut inputs1 = version.overlapping_inputs(
            level + 1,
            extract_user_key(smallest.as_slice()),
            extract_user_key(largest.as_slice()),
        );
        let ghost f0 = metas(inputs0@);
        let ghost m1 = metas(inputs1@);
        let ghost limit = opt.spec_expanded_compaction_byte_size_limit();
        assert(m1 == next_inputs(version, level as int, f0));
        let (all_start, all_limit) = get_range2(&inputs0, &inputs1);
        let mut grew = false;
        if inputs1.len() > 0 {
            let expanded0 = version.overlapping_inputs(
                level,
                extract_user_key(all_start.as_slice()),
                extract_user_key(all_limit.as_slice()),
            );
            let ghost e0 = metas(expanded0@);
            proof {
                assert((f0 + m1).len() == f0.len() + m1.len());
                if level >= 1 {
                    assert(e0 == grown_inputs(version, level as int, f0));
                }
                crate::compaction::lemma_total_size_bound(m1);
                crate::compaction::lemma_total_size_bound(e0);
            }
            let grown = total_file_size(&inputs1).saturating_add(total_file_size(&expanded0));
            if expanded0.len() > inputs0.len() && grown
                < opt.expanded_compaction_byte_size_limit() {
                let (new_start, new_limit) = get_range(&expanded0);
                let expanded1 = version.overlapping_inputs(
                    level + 1,
                    extract_user_key(new_start.as_slice()),
                    extract_user_key(new_limit.as_slice()),
                );
                assert(metas(expanded1@) == next_inputs(version, level as int, e0));
                if expanded1.len() == inputs1.len() {
                    proof {
                        let begin = user_key_of(all_start@);
                        let end = user_key_of(all_limit@);
                        lemma_range_covers_members(f0 + m1, f0.index_of(sv));
                        assert((f0 + m1)[f0.index_of(sv)] == sv);
                        assert(sv.sound());
                        lemma_start_in_range(sv, all_start@, all_limit@);
                        if level >= 1 {
                            lemma_filtered_are_members(lv, begin, end);
                            crate::version::lemma_filter_has(
                                lv,
                                |f: FileMetaView| f.overlaps(begin, end),
                                ix as int,
                            );
                        } else {
                            let (wlo, whi) = choose|wlo: Seq<u8>, whi: Seq<u8>|
                                closed_over(lv, e0, begin, end, wlo, whi);
                            lemma_lex_transitive(wlo, begin, sv.hi());
                            lemma_lex_transitive(sv.lo(), end, whi);
                            assert(sv.overlaps(wlo, whi));
                            lemma_filtered_are_members(lv, wlo, whi);
                            crate::version::lemma_filter_has(
                                lv,
                                |f: FileMetaView| f.overlaps(wlo, whi),
                                ix as int,
                            );
                        }
                    }
                    inputs0 = expanded0;
                    inputs1 = expanded1;
                    grew = true;
                }
            }
            assert(level >= 1 ==> grew == grows(version, limit, level as int, f0));
        }
        assert(level >= 1 ==> grew == grows(version, limit, level as int, f0));
        assert(level >= 1 ==> metas(inputs0@) == if grew {
            grown_inputs(version, level as int, f0)
        } else {
            f0
        });
        let (all_start2, all_limit2) = get_range2(&inputs0, &inputs1);
        let grandparents = if level + 2 < NUM_LEVELS {
            version.overlapping_inputs(
                level + 2,
                extract_user_key(all_start2.as_slice()),
                extract_user_key(all_limit2.as_slice()),
            )
        } else {
            Vec::new()
        };
        assert(level + 2 >= NUM_LEVELS ==> metas(grandparents@) =~= Seq::empty());
        let (_lo, ptr) = get_range(&inputs0);
        c.edit.set_compact_pointer(level, ptr.as_slice());
        assert(c.edit@.compaction_ptrs =~= seq![(level, ptr@)]);
        c.inputs0 = inputs0;
        c.inputs1 = inputs1;
        c.grandparents = grandparents;
        proof {
            assert(metas(c.grandparents@).subrange(0, 0) =~= Seq::empty());
        }
        self.compaction_ptrs.set(level, ptr);
        Some(c)
    }
}

/// Every file that a filter by overlap lets through is one of the files
/// filtered.
pub proof fn lemma_filtered_are_members(files: Seq<FileMetaView>, lo: Seq<u8>, hi: Seq<u8>)
    ensures
        forall|i: int|
            0 <= i < overlapping(files, lo, hi).len() ==> files.contains(
                #[trigger] overlapping(files, lo, hi)[i],
            ),
{
    let pred = |f: FileMetaView| f.overlaps(lo, hi);
    assert forall|i: int| 0 <= i < overlapping(files, lo, hi).len() implies files.contains(
        #[trigger] overlapping(files, lo, hi)[i],
    ) by {
        files.lemma_filter_contains_rev(pred, overlapping(files, lo, hi)[i]);
    }
}

/// The smallest key among files does not sort behind the smallest key of any
/// of them, nor the largest before the largest of any.
pub proof fn lemma_range_covers_members(files: Seq<FileMetaView>, j: int)
    requires
        0 <= j < files.len(),
    ensures
        internal_le(smallest_key(files, files.len() as int), files[j].smallest),
        internal_le(files[j].largest, largest_key(files, files.len() as int)),
{
    lemma_range_covers_prefix(files, files.len() as int, j);
}

proof fn lemma_range_covers_prefix(files: Seq<FileMetaView>, n: int, j: int)
    requires
        0 <= j < n <= files.len(),
    ensures
        internal_le(smallest_key(files, n), files[j].smallest),
        internal_le(files[j].largest, largest_key(files, n)),
    decreases n,
{
    crate::key_types::lemma_internal_order(files[j].smallest, files[j].smallest, files[j].smallest);
    crate::key_types::lemma_internal_order(files[j].largest, files[j].largest, files[j].largest);
    if n > 1 {
        if j < n - 1 {
            lemma_range_covers_prefix(files, n - 1, j);
        }
        crate::key_types::lemma_internal_order(
            files[n - 1].smallest,
            smallest_key(files, n - 1),
            files[j].smallest,
        );
        crate::key_types::lemma_internal_order(
            files[j].largest,
            largest_key(files, n - 1),
            files[n - 1].largest,
        );
        crate::key_types::lemma_internal_order(
            files[j].largest,
            files[n - 1].largest,
            files[n - 1].largest,
        );
        crate::key_types::lemma_internal_order(
            files[n - 1].smallest,
            files[j].smallest,
            files[j].smallest,
        );
        crate::key_types::lemma_internal_order(
            largest_key(files, n - 1),
            files[n - 1].largest,
            files[n - 1].largest,
        );
    }
}

/// A file whose keys lie between two keys meets the user-key range that the
/// two keys span.
pub proof fn lemma_start_in_range(f: FileMetaView, start: Seq<u8>, limit: Seq<u8>)
    requires
        f.sound(),
        internal_le(start, f.smallest),
        internal_le(f.largest, limit),
    ensures
        f.overlaps(user_key_of(start), user_key_of(limit)),
{
    lemma_lex_transitive(user_key_of(start), f.lo(), f.hi());
    lemma_lex_transitive(f.lo(), f.hi(), user_key_of(limit));
}

/// What the replay of a manifest has put together so far, as plain values.
pub ghost struct Replay {
    /// The files of each level.
    pub levels: Seq<Seq<FileMetaView>>,
    /// The log number recorded last.
    pub log_number: Option<u64>,
    /// The previous log number recorded last.
    pub prev_log_number: Option<u64>,
    /// The next file number recorded last.
    pub next_file_number: Option<u64>,
    /// The last sequence recorded last.
    pub last_seq: Option<u64>,
    /// Per level, the compaction pointer recorded last; empty where none was.
    pub pointers: Seq<Seq<u8>>,
}

/// The compaction pointers of each level, as plain values.
pub open spec fn pointers_view(ptrs: Seq<Vec<u8>>) -> Seq<Seq<u8>> {
    Seq::new(ptrs.len(), |l: int| ptrs[l]@)
}

/// `ptrs` with the first `n` of the pointers `recorded` put at their levels,
/// in order. A pointer for a level that does not exist is passed over.
pub open spec fn with_pointers(ptrs: Seq<Seq<u8>>, recorded: Seq<(usize, Seq<u8>)>, n: int) -> Seq<
    Seq<u8>,
>
    decreases n,
{
    if n <= 0 {
        ptrs
    } else {
        let before = with_pointers(ptrs, recorded, n - 1);
        if recorded[n - 1].0 < before.len() {
            before.update(recorded[n - 1].0 as int, recorded[n - 1].1)
        } else {
            before
        }
    }
}

/// The files of each level of `v`.
pub open spec fn levels_of(v: &Version) -> Seq<Seq<FileMetaView>> {
    Seq::new(NUM_LEVELS as nat, |l: int| v.level(l))
}

/// The later of two recorded values: the new one where there is one.
pub open spec fn later(new: Option<u64>, was: Option<u64>) -> Option<u64> {
    match new {
        Some(n) => Some(n),
        None => was,
    }
}

/// `r` with one more edit taken in.
pub open spec fn replay_step(r: Replay, e: EditView) -> Replay {
    Replay {
        levels: Seq::new(NUM_LEVELS as nat, |l: int| applied_level(r.levels[l], e, l as usize)),
        log_number: later(e.log_number, r.log_number),
        prev_log_number: later(e.prev_log_number, r.prev_log_number),
        next_file_number: later(e.next_file_number, r.next_file_number),
        last_seq: later(e.last_seq, r.last_seq),
        pointers: with_pointers(r.pointers, e.compaction_ptrs, e.compaction_ptrs.len() as int),
    }
}

/// Whether every level of `levels` may stand at its level.
pub open spec fn levels_valid(levels: Seq<Seq<FileMetaView>>) -> bool {
    forall|l: int| 0 <= l < NUM_LEVELS ==> level_valid(#[trigger] levels[l], l as usize)
}

/// What replaying the records from `i` on comes to, from `r`: the result, or
/// the kind of the first failure. A record that cannot be read is
/// `Corruption`; one that names another comparator than `name` is
/// `InvalidArgument`; one that leads to files that may not stand at their
/// level is `Corruption`.
pub open spec fn replay_from(records: Seq<Seq<u8>>, i: int, r: Replay, name: Seq<u8>) -> Result<
    Replay,
    StatusCode,
>
    decreases records.len() - i,
{
    if i < 0 || i >= records.len() {
        Ok(r)
    } else {
        match dec_edit(records[i]) {
            None => Err(StatusCode::Corruption),
            Some(e) => if e.comparator.is_some() && e.comparator.unwrap() != name {
                Err(StatusCode::InvalidArgument)
            } else if !levels_valid(replay_step(r, e).levels) {
                Err(StatusCode::Corruption)
            } else {
                replay_from(records, i + 1, replay_step(r, e), name)
            },
        }
    }
}

/// What a replay starts from: no files and no counters.
pub open spec fn replay_start() -> Replay {
    Replay {
        levels: Seq::new(NUM_LEVELS as nat, |l: int| Seq::<FileMetaView>::empty()),
        log_number: None,
        prev_log_number: None,
        next_file_number: None,
        last_seq: None,
        pointers: Seq::new(NUM_LEVELS as nat, |l: int| Seq::<u8>::empty()),
    }
}

/// Whether a replay has all that a manifest must record: the next file
/// number, below the largest, the log number and the last sequence.
pub open spec fn replay_complete(r: Replay) -> bool {
    r.next_file_number.is_some() && r.next_file_number.unwrap() < u64::MAX
        && r.log_number.is_some() && r.last_seq.is_some()
}

/// The records of a list, as plain values.
pub open spec fn records_view(records: Seq<Vec<u8>>) -> Seq<Seq<u8>> {
    Seq::new(records.len(), |i: int| records[i]@)
}

impl VersionSet {
    /// Rebuilds the state from the records of the manifest: every record is
    /// an edit, and the edits are applied in order to a version without
    /// files. The counters and the compaction pointers are those recorded
    /// last. `manifest` is the number of the manifest that the records were
    /// read from. Where manifests are reused, that manifest stays the
    /// manifest and is open for appending. Where they are not, the manifest
    /// to write takes the next file number recorded. Either way the file
    /// numbers go on behind the next file number recorded.
    ///
    /// Fails, and changes nothing, where a record cannot be read
    /// (`Corruption`), names another comparator than the one configured
    /// (`InvalidArgument`), leads to files that may not stand at their level
    /// (`Corruption`), or where the records lack the next file number, the
    /// log number or the last sequence (`Corruption`).
    ///
    /// Returns whether the manifest must be written anew: it is unless
    /// manifests are reused.
    pub fn recover(&mut self, records: &Vec<Vec<u8>>, manifest: FileNum) -> (r: Result<
        bool,
        Status,
    >)
        requires
            old(self).wf(),
        ensures
            final(self).wf(),
            ({
                let res = replay_from(
                    records_view(records@),
                    0,
                    replay_start(),
                    old(self).comparator_name@,
                );
                &&& r.is_ok() == (res is Ok && replay_complete(res->Ok_0))
                &&& r.is_err() ==> *final(self) == *old(self)
                &&& r.is_err() && res is Err ==> res == Err::<Replay, StatusCode>(r.unwrap_err().spec_code())
                &&& r.is_err() && res is Ok ==> r.unwrap_err().spec_code()
                    == StatusCode::Corruption
                &&& r.is_ok() ==> ({
                    let end = res->Ok_0;
                    &&& r.unwrap() == !old(self).opt.reuse_manifest
                    &&& levels_of(&final(self).current) == end.levels
                    &&& final(self).manifest_num == if old(self).opt.reuse_manifest {
                        manifest
                    } else {
                        end.next_file_number.unwrap()
                    }
                    &&& final(self).manifest_open == (old(self).opt.reuse_manifest || old(
                        self,
                    ).manifest_open)
                    &&& final(self).next_file_num == end.next_file_number.unwrap() + 1
                    &&& final(self).last_seq == end.last_seq.unwrap()
                    &&& final(self).log_num == end.log_number.unwrap()
                    &&& final(self).prev_log_num == match end.prev_log_number {
                        Some(n) => n,
                        None => 0,
                    }
                    &&& final(self).current.file_to_compact.is_none()
                    &&& final(self).current.compaction_level == Some(
                        best_level(&final(self).current, NUM_LEVELS - 1) as usize,
                    )
                    &&& final(self).opt == old(self).opt
                    &&& final(self).comparator_name == old(self).comparator_name
                    &&& pointers_view(final(self).compaction_ptrs@) == end.pointers
                })
            }),
    {
        let ghost recs = records_view(records@);
        let ghost name = self.comparator_name@;
        let mut running = Version::new();
        let mut log_number: Option<u64> = None;
        let mut prev_log_number: Option<u64> = None;
        let mut next_file_number: Option<u64> = None;
        let mut last_seq: Option<u64> = None;
        let mut ptrs: Vec<Vec<u8>> = Vec::new();
        while ptrs.len() < NUM_LEVELS
            invariant
                ptrs@.len() <= NUM_LEVELS,
                forall|k: int| 0 <= k < ptrs@.len() ==> (#[trigger] ptrs@[k])@ == Seq::<u8>::empty(),
            decreases NUM_LEVELS - ptrs@.len(),
        {
            ptrs.push(Vec::new());
        }
        assert(pointers_view(ptrs@) =~= replay_start().pointers);
        proof {
            assert forall|l: int| 0 <= l < NUM_LEVELS implies #[trigger] running.level(l)
                == Seq::<FileMetaView>::empty() by {
                assert(running.level(l) =~= Seq::<FileMetaView>::empty());
            }
            assert(levels_of(&running) =~= replay_start().levels);
        }
        let mut i: usize = 0;
        while i < records.len()
            invariant
                i <= records@.len(),
                *self == *old(self),
                self.wf(),
                recs == records_view(records@),
                name == self.comparator_name@,
                running.wf(),
                running.file_to_compact.is_none(),
                ptrs@.len() == NUM_LEVELS,
                replay_from(recs, 0, replay_start(), name) == replay_from(
                    recs,
                    i as int,
                    Replay {
                        levels: levels_of(&running),
                        log_number,
                        prev_log_number,
                        next_file_number,
                        last_seq,
                        pointers: pointers_view(ptrs@),
                    },
                    name,
                ),
            decreases records.len() - i,
        {
            let ghost cur = Replay {
                levels: levels_of(&running),
                log_number,
                prev_log_number,
                next_file_number,
                last_seq,
                pointers: pointers_view(ptrs@),
            };
            assert(recs[i as int] == records@[i as int]@);
            let edit = match VersionEdit::decode_from(records[i].as_slice()) {
                Err(st) => {
                    return Err(st);
                },
                Ok(e) => e,
            };
            let same = match &edit.comparator {
                Some(n) => bytes_eq(n.as_slice(), self.comparator_name.as_slice()),
                None => true,
            };
            if !same {
                return Err(
                    Status::new(
                        StatusCode::InvalidArgument,
                        "the manifest names another comparator",
                    ),
                );
            }
            proof {
                assert(replay_step(cur, edit@).levels =~= Seq::new(
                    NUM_LEVELS as nat,
                    |l: int| applied(&running, edit@, l),
                ));
                assert(applies(&running, edit@) == levels_valid(replay_step(cur, edit@).levels)) by {
                    if applies(&running, edit@) {
                        assert forall|l: int| 0 <= l < NUM_LEVELS implies level_valid(
                            #[trigger] replay_step(cur, edit@).levels[l],
                            l as usize,
                        ) by {
                            assert(level_valid(applied(&running, edit@, l), l as usize));
                        }
                    }
                    if levels_valid(replay_step(cur, edit@).levels) {
                        assert forall|l: int| 0 <= l < NUM_LEVELS implies level_valid(
                            #[trigger] applied(&running, edit@, l),
                            l as usize,
                        ) by {
                            assert(level_valid(replay_step(cur, edit@).levels[l], l as usize));
                        }
                    }
                }
            }
            let next = match apply_edit(&running, &edit) {
                Err(st) => {
                    return Err(st);
                },
                Ok(v) => v,
            };
            proof {
                assert(levels_of(&next) =~= replay_step(cur, edit@).levels);
            }
            running = next;
            let mut j: usize = 0;
            while j < edit.compaction_ptrs.len()
                invariant
                    j <= edit.compaction_ptrs@.len(),
                    ptrs@.len() == NUM_LEVELS,
                    pointers_view(ptrs@) == with_pointers(
                        cur.pointers,
                        edit@.compaction_ptrs,
                        j as int,
                    ),
                decreases edit.compaction_ptrs.len() - j,
            {
                let level = edit.compaction_ptrs[j].0;
                if level < NUM_LEVELS {
                    let key = copy_bytes(edit.compaction_ptrs[j].1.as_slice());
                    let ghost before = pointers_view(ptrs@);
                    ptrs.set(level, key);
                    assert(pointers_view(ptrs@) =~= before.update(
                        level as int,
                        edit@.compaction_ptrs[j as int].1,
                    ));
                }
                j += 1;
            }
            if edit.log_number.is_some() {
                log_number = edit.log_number;
            }
            if edit.prev_log_number.is_some() {
                prev_log_number = edit.prev_log_number;
            }
            if edit.next_file_number.is_some() {
                next_file_number = edit.next_file_number;
            }
            if edit.last_seq.is_some() {
                last_seq = edit.last_seq;
            }
            i += 1;
        }
        let complete = match (next_file_number, log_number, last_seq) {
            (Some(n), Some(_), Some(_)) => n < u64::MAX,
            _ => false,
        };
        if !complete {
            return Err(
                Status::new(StatusCode::Corruption, "the manifest lacks a counter"),
            );
        }
        let ghost levels = levels_of(&running);
        let ghost unscored = running;
        finalize(&mut running);
        proof {
            assert(levels_of(&running) =~= levels);
            lemma_best_level_same(&unscored, &running, NUM_LEVELS - 1);
        }
        self.current = running;
        self.compaction_ptrs = ptrs;
        if self.opt.reuse_manifest {
            self.manifest_num = manifest;
            self.manifest_open = true;
        } else {
            self.manifest_num = next_file_number.unwrap();
        }
        self.next_file_num = next_file_number.unwrap() + 1;
        self.last_seq = last_seq.unwrap();
        self.log_num = log_number.unwrap();
        self.prev_log_num = match prev_log_number {
            Some(n) => n,
            None => 0,
        };
        Ok(!self.opt.reuse_manifest)
    }
}

/// The level with the highest score depends on the files alone.
pub proof fn lemma_best_level_same(a: &Version, b: &Version, n: int)
    requires
        a.files == b.files,
    ensures
        best_level(a, n) == best_level(b, n),
    decreases n,
{
    if n > 1 {
        lemma_best_level_same(a, b, n - 1);
    }
}

/// In the steps that write an edit to the manifest, `CURRENT` is set only
/// after the edit's record was appended and made durable.
pub proof fn lemma_current_set_after_edit(vs: &VersionSet, edit: EditView, k: int)
    requires
        0 <= k < vs.manifest_steps(edit).len(),
        vs.manifest_steps(edit)[k] is SetCurrent,
    ensures
        exists|i: int, j: int|
            0 <= i < j < k && vs.manifest_steps(edit)[i] == ActionView::Append(enc_edit(edit))
                && vs.manifest_steps(edit)[j] == ActionView::Sync,
{
    let steps = vs.manifest_steps(edit);
    assert(steps[2] == ActionView::Append(enc_edit(edit)) && steps[3] == ActionView::Sync);
}

/// Where every file that an edit adds has a number that was handed out, every
/// file number in the record written for it is below the next file number
/// that the record carries, which is the version set's.
pub proof fn lemma_written_numbers_below_next(vs: &VersionSet, edit: EditView)
    requires
        forall|i: int| 0 <= i < edit.new_files.len() ==> edit.new_files[i].num < vs.next_file_num,
    ensures
        ({
            let e = filled_in(
                edit,
                vs.log_num,
                vs.prev_log_num,
                vs.next_file_num,
                vs.last_seq,
            );
            &&& e.next_file_number == Some(vs.next_file_num)
            &&& forall|i: int|
                0 <= i < e.new_files.len() ==> e.new_files[i].num < e.next_file_number.unwrap()
        }),
{
}

/// The files of level `l` after `edit` is applied to `v`.
pub open spec fn applied(v: &Version, edit: EditView, l: int) -> Seq<FileMetaView> {
    applied_level(v.level(l), edit, l as usize)
}

/// Whether `edit` can be applied to `v`: every level of the result may stand
/// at its level.
pub open spec fn applies(v: &Version, edit: EditView) -> bool {
    forall|l: int| 0 <= l < NUM_LEVELS ==> level_valid(#[trigger] applied(v, edit, l), l as usize)
}

} // verus!
